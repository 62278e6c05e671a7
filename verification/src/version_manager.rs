//! The version index: a durable two-table store of version records and
//! latest-version pointers, each with TTL, fronted by an in-process map.
//!
//! State machine per key: absent, then present and fresh, then present but
//! stale, then absent again — stale entries leave lazily on read, or in a
//! sweep. The durable tables, never the in-process map, are the source of
//! truth.

use vstd::prelude::*;
use vstd::string::{StrSliceExecFns, StringExecFns};
use vstd::utf8::encode_utf8;
use crate::config::Config;
use crate::mem_map::StringMap;
use crate::records::{
    decode_mapping, decode_version_info, encode_mapping, encode_version_info, spec_enc_mapping,
    spec_enc_version_info, spec_mapping_encodable, spec_version_info_encodable,
    LatestVersionMapping, VersionInfo,
};
use crate::store::{
    db_flush, db_open, db_open_tree, spec_bytes_prefix, spec_lists_entries,
    spec_lists_prefix_entries, tree_entries, tree_get, tree_insert, tree_iter_all, tree_remove,
    tree_scan_prefix, Database, StoreTree,
};
use crate::strutil::str_to_bytes;

verus! {

#[derive(Debug)]
pub enum VersionManagerError {
    /// The durable engine failed.
    DatabaseError(String),
    /// A stored record does not parse.
    SerializationError(String),
    /// The clock could not be read.
    SystemTimeError(String),
    /// The entry is past its TTL.
    ExpiredError(String),
    /// The entry is not there.
    NotFoundError(String),
}

/// Counts over the stored tables.
#[derive(Debug, Clone)]
pub struct VersionManagerStats {
    pub latest_mappings_count: usize,
    pub versions_count: usize,
    pub expired_count: usize,
    pub memory_cache_size: usize,
}

/// The key of the latest-version table: the package name's bytes.
pub open spec fn spec_latest_key(name: Seq<char>) -> Seq<u8> {
    encode_utf8(name)
}

/// The key of the versions table: `name:version` as bytes.
pub open spec fn spec_version_key(name: Seq<char>, version: Seq<char>) -> Seq<u8> {
    encode_utf8(name + ":"@ + version)
}

/// What every key of a package's version records begins with.
pub open spec fn spec_version_prefix(name: Seq<char>) -> Seq<u8> {
    encode_utf8(name + ":"@)
}

/// For one package, distinct versions have distinct table keys.
pub proof fn lemma_version_key_injective(name: Seq<char>, a: Seq<char>, b: Seq<char>)
    requires
        spec_version_key(name, a) == spec_version_key(name, b),
    ensures
        a == b,
{
    vstd::utf8::encode_utf8_decode_utf8(name + ":"@ + a);
    vstd::utf8::encode_utf8_decode_utf8(name + ":"@ + b);
    assert(name + ":"@ + a == name + ":"@ + b);
    let p = name + ":"@;
    assert(a =~= (p + a).skip(p.len() as int));
    assert(b =~= (p + b).skip(p.len() as int));
}

/// Do these bytes hold a version record past its TTL at `now`?
#[verifier::opaque]
pub open spec fn spec_stale_version(bytes: Seq<u8>, now: u64) -> bool {
    exists|v: VersionInfo|
        spec_version_info_encodable(v) && bytes == spec_enc_version_info(v) && now > v.expires_at
}

/// Do these bytes hold a version record still within its TTL at `now`?
#[verifier::opaque]
pub open spec fn spec_fresh_version(bytes: Seq<u8>, now: u64) -> bool {
    exists|v: VersionInfo|
        spec_version_info_encodable(v) && bytes == spec_enc_version_info(v) && now <= v.expires_at
}

/// Do these bytes hold a latest-version pointer past its TTL at `now`?
#[verifier::opaque]
pub open spec fn spec_stale_mapping(bytes: Seq<u8>, now: u64) -> bool {
    exists|m: LatestVersionMapping|
        spec_mapping_encodable(m) && bytes == spec_enc_mapping(m) && now > m.expires_at
}

/// Do these bytes hold any well-formed latest-version pointer?
#[verifier::opaque]
pub open spec fn spec_is_mapping(bytes: Seq<u8>) -> bool {
    exists|m: LatestVersionMapping| spec_mapping_encodable(m) && bytes == spec_enc_mapping(m)
}

/// Do these bytes hold any well-formed version record?
#[verifier::opaque]
pub open spec fn spec_is_version(bytes: Seq<u8>) -> bool {
    exists|v: VersionInfo| spec_version_info_encodable(v) && bytes == spec_enc_version_info(v)
}

/// Do these bytes hold a pointer past its TTL at `now` whose package is
/// `nm`?
#[verifier::opaque]
pub open spec fn spec_stale_mapping_named(bytes: Seq<u8>, now: u64, nm: Seq<char>) -> bool {
    exists|m: LatestVersionMapping|
        spec_mapping_encodable(m) && bytes == spec_enc_mapping(m) && now > m.expires_at
            && m.crate_name@ == nm
}

/// No package whose stale pointer stood in `lt0` is still in the
/// in-process map.
#[verifier::opaque]
pub open spec fn spec_stale_names_evicted(
    cache: Map<Seq<char>, Seq<char>>,
    lt0: Map<Seq<u8>, Seq<u8>>,
    now: u64,
) -> bool {
    forall|nm: Seq<char>|
        #![auto]
        cache.contains_key(nm) ==> !(exists|k: Seq<u8>|
            #![auto]
            lt0.contains_key(k) && spec_stale_mapping_named(lt0[k], now, nm))
}

/// A record pins what the stored bytes mean: they are a well-formed record,
/// and fresh or stale exactly as its own expiry says.
pub proof fn lemma_version_witness(bytes: Seq<u8>, v: VersionInfo, now: u64)
    requires
        spec_version_info_encodable(v),
        bytes == spec_enc_version_info(v),
    ensures
        spec_is_version(bytes),
        now <= v.expires_at ==> spec_fresh_version(bytes, now) && !spec_stale_version(bytes, now),
        now > v.expires_at ==> spec_stale_version(bytes, now) && !spec_fresh_version(bytes, now),
{
    reveal(spec_is_version);
    reveal(spec_fresh_version);
    reveal(spec_stale_version);
    if now <= v.expires_at {
        if spec_stale_version(bytes, now) {
            let w = choose|w: VersionInfo|
                spec_version_info_encodable(w) && bytes == spec_enc_version_info(w) && now
                    > w.expires_at;
            crate::records::lemma_enc_version_info_injective(v, w);
        }
    } else {
        if spec_fresh_version(bytes, now) {
            let w = choose|w: VersionInfo|
                spec_version_info_encodable(w) && bytes == spec_enc_version_info(w) && now
                    <= w.expires_at;
            crate::records::lemma_enc_version_info_injective(v, w);
        }
    }
}

/// The same, for a latest-version pointer; also pins which package name a
/// stale pointer names.
pub proof fn lemma_mapping_witness(bytes: Seq<u8>, m: LatestVersionMapping, now: u64)
    requires
        spec_mapping_encodable(m),
        bytes == spec_enc_mapping(m),
    ensures
        spec_is_mapping(bytes),
        now > m.expires_at ==> spec_stale_mapping(bytes, now) && spec_stale_mapping_named(
            bytes,
            now,
            m.crate_name@,
        ),
        now <= m.expires_at ==> !spec_stale_mapping(bytes, now),
        forall|nm: Seq<char>|
            #![auto]
            spec_stale_mapping_named(bytes, now, nm) ==> nm == m.crate_name@ && now > m.expires_at,
{
    reveal(spec_is_mapping);
    reveal(spec_stale_mapping);
    reveal(spec_stale_mapping_named);
    if now <= m.expires_at {
        if spec_stale_mapping(bytes, now) {
            let w = choose|w: LatestVersionMapping|
                spec_mapping_encodable(w) && bytes == spec_enc_mapping(w) && now > w.expires_at;
            crate::records::lemma_enc_mapping_injective(m, w);
        }
    }
    assert forall|nm: Seq<char>|
        #![auto]
        spec_stale_mapping_named(bytes, now, nm) implies nm == m.crate_name@ && now
        > m.expires_at by {
        let w = choose|w: LatestVersionMapping|
            spec_mapping_encodable(w) && bytes == spec_enc_mapping(w) && now > w.expires_at
                && w.crate_name@ == nm;
        crate::records::lemma_enc_mapping_injective(m, w);
    }
}

/// Bytes no record encodes to are neither fresh nor stale nor well formed.
proof fn lemma_version_undecodable(bytes: Seq<u8>, now: u64)
    requires
        forall|v: VersionInfo|
            !(spec_version_info_encodable(v) && bytes == spec_enc_version_info(v)),
    ensures
        !spec_is_version(bytes),
        !spec_fresh_version(bytes, now),
        !spec_stale_version(bytes, now),
{
    reveal(spec_is_version);
    reveal(spec_fresh_version);
    reveal(spec_stale_version);
}

/// Bytes no pointer encodes to are neither stale nor well formed.
proof fn lemma_mapping_undecodable(bytes: Seq<u8>, now: u64)
    requires
        forall|m: LatestVersionMapping|
            !(spec_mapping_encodable(m) && bytes == spec_enc_mapping(m)),
    ensures
        !spec_is_mapping(bytes),
        !spec_stale_mapping(bytes, now),
        forall|nm: Seq<char>| #![auto] !spec_stale_mapping_named(bytes, now, nm),
{
    reveal(spec_is_mapping);
    reveal(spec_stale_mapping);
    reveal(spec_stale_mapping_named);
}

/// One sweep step that removed the stale entry at `i`: the running
/// characterization of the table advances by one processed pair.
proof fn lemma_sweep_version_step(
    pairs: Seq<(Vec<u8>, Vec<u8>)>,
    i: int,
    now: u64,
    cur: Map<Seq<u8>, Seq<u8>>,
    new: Map<Seq<u8>, Seq<u8>>,
    vt0: Map<Seq<u8>, Seq<u8>>,
)
    requires
        0 <= i < pairs.len(),
        spec_stale_version(pairs[i].1@, now),
        new == cur.remove(pairs[i].0@),
        forall|k: Seq<u8>|
            #![auto]
            cur.contains_key(k) == (vt0.contains_key(k) && !(exists|j: int|
                0 <= j < i && pairs[j].0@ == k && spec_stale_version(pairs[j].1@, now))),
        forall|k: Seq<u8>| #![auto] cur.contains_key(k) ==> cur[k] == vt0[k],
    ensures
        forall|k: Seq<u8>|
            #![auto]
            new.contains_key(k) == (vt0.contains_key(k) && !(exists|j: int|
                0 <= j < i + 1 && pairs[j].0@ == k && spec_stale_version(pairs[j].1@, now))),
        forall|k: Seq<u8>| #![auto] new.contains_key(k) ==> new[k] == vt0[k],
{
    assert forall|k: Seq<u8>|
        #![auto]
        new.contains_key(k) == (vt0.contains_key(k) && !(exists|j: int|
            0 <= j < i + 1 && pairs[j].0@ == k && spec_stale_version(pairs[j].1@, now))) by {
        if k == pairs[i].0@ {
            assert(0 <= i < i + 1 && pairs[i].0@ == k && spec_stale_version(pairs[i].1@, now));
            assert(!new.contains_key(k));
        } else {
            assert(new.contains_key(k) == cur.contains_key(k));
            if exists|j: int|
                0 <= j < i + 1 && pairs[j].0@ == k && spec_stale_version(pairs[j].1@, now) {
                let j = choose|j: int|
                    0 <= j < i + 1 && pairs[j].0@ == k && spec_stale_version(pairs[j].1@, now);
                assert(j < i);
                assert(exists|j: int|
                    0 <= j < i && pairs[j].0@ == k && spec_stale_version(pairs[j].1@, now));
            }
        }
    }
}

/// One sweep step that removed nothing: the bound of the running
/// characterization still advances, because the pair at `i` is not stale.
proof fn lemma_exists_step_no_removal(
    pairs: Seq<(Vec<u8>, Vec<u8>)>,
    i: int,
    now: u64,
    cur: Map<Seq<u8>, Seq<u8>>,
    vt0: Map<Seq<u8>, Seq<u8>>,
)
    requires
        0 <= i < pairs.len(),
        !spec_stale_version(pairs[i].1@, now),
        forall|k: Seq<u8>|
            #![auto]
            cur.contains_key(k) == (vt0.contains_key(k) && !(exists|j: int|
                0 <= j < i && pairs[j].0@ == k && spec_stale_version(pairs[j].1@, now))),
    ensures
        forall|k: Seq<u8>|
            #![auto]
            cur.contains_key(k) == (vt0.contains_key(k) && !(exists|j: int|
                0 <= j < i + 1 && pairs[j].0@ == k && spec_stale_version(pairs[j].1@, now))),
{
    assert forall|k: Seq<u8>|
        #![auto]
        cur.contains_key(k) == (vt0.contains_key(k) && !(exists|j: int|
            0 <= j < i + 1 && pairs[j].0@ == k && spec_stale_version(pairs[j].1@, now))) by {
        if exists|j: int|
            0 <= j < i + 1 && pairs[j].0@ == k && spec_stale_version(pairs[j].1@, now) {
            let j = choose|j: int|
                0 <= j < i + 1 && pairs[j].0@ == k && spec_stale_version(pairs[j].1@, now);
            assert(j < i);
            assert(exists|j: int|
                0 <= j < i && pairs[j].0@ == k && spec_stale_version(pairs[j].1@, now));
        }
    }
}

/// As `lemma_sweep_version_step`, for the latest-version table.
proof fn lemma_sweep_mapping_step(
    pairs: Seq<(Vec<u8>, Vec<u8>)>,
    i: int,
    now: u64,
    cur: Map<Seq<u8>, Seq<u8>>,
    new: Map<Seq<u8>, Seq<u8>>,
    lt0: Map<Seq<u8>, Seq<u8>>,
)
    requires
        0 <= i < pairs.len(),
        spec_stale_mapping(pairs[i].1@, now),
        new == cur.remove(pairs[i].0@),
        forall|k: Seq<u8>|
            #![auto]
            cur.contains_key(k) == (lt0.contains_key(k) && !(exists|j: int|
                0 <= j < i && pairs[j].0@ == k && spec_stale_mapping(pairs[j].1@, now))),
        forall|k: Seq<u8>| #![auto] cur.contains_key(k) ==> cur[k] == lt0[k],
    ensures
        forall|k: Seq<u8>|
            #![auto]
            new.contains_key(k) == (lt0.contains_key(k) && !(exists|j: int|
                0 <= j < i + 1 && pairs[j].0@ == k && spec_stale_mapping(pairs[j].1@, now))),
        forall|k: Seq<u8>| #![auto] new.contains_key(k) ==> new[k] == lt0[k],
{
    assert forall|k: Seq<u8>|
        #![auto]
        new.contains_key(k) == (lt0.contains_key(k) && !(exists|j: int|
            0 <= j < i + 1 && pairs[j].0@ == k && spec_stale_mapping(pairs[j].1@, now))) by {
        if k == pairs[i].0@ {
            assert(0 <= i < i + 1 && pairs[i].0@ == k && spec_stale_mapping(pairs[i].1@, now));
            assert(!new.contains_key(k));
        } else {
            assert(new.contains_key(k) == cur.contains_key(k));
            if exists|j: int|
                0 <= j < i + 1 && pairs[j].0@ == k && spec_stale_mapping(pairs[j].1@, now) {
                let j = choose|j: int|
                    0 <= j < i + 1 && pairs[j].0@ == k && spec_stale_mapping(pairs[j].1@, now);
                assert(j < i);
                assert(exists|j: int|
                    0 <= j < i && pairs[j].0@ == k && spec_stale_mapping(pairs[j].1@, now));
            }
        }
    }
}

/// As `lemma_exists_step_no_removal`, for the latest-version table.
proof fn lemma_mapping_exists_step_no_removal(
    pairs: Seq<(Vec<u8>, Vec<u8>)>,
    i: int,
    now: u64,
    cur: Map<Seq<u8>, Seq<u8>>,
    lt0: Map<Seq<u8>, Seq<u8>>,
)
    requires
        0 <= i < pairs.len(),
        !spec_stale_mapping(pairs[i].1@, now),
        forall|k: Seq<u8>|
            #![auto]
            cur.contains_key(k) == (lt0.contains_key(k) && !(exists|j: int|
                0 <= j < i && pairs[j].0@ == k && spec_stale_mapping(pairs[j].1@, now))),
    ensures
        forall|k: Seq<u8>|
            #![auto]
            cur.contains_key(k) == (lt0.contains_key(k) && !(exists|j: int|
                0 <= j < i + 1 && pairs[j].0@ == k && spec_stale_mapping(pairs[j].1@, now))),
{
    assert forall|k: Seq<u8>|
        #![auto]
        cur.contains_key(k) == (lt0.contains_key(k) && !(exists|j: int|
            0 <= j < i + 1 && pairs[j].0@ == k && spec_stale_mapping(pairs[j].1@, now))) by {
        if exists|j: int|
            0 <= j < i + 1 && pairs[j].0@ == k && spec_stale_mapping(pairs[j].1@, now) {
            let j = choose|j: int|
                0 <= j < i + 1 && pairs[j].0@ == k && spec_stale_mapping(pairs[j].1@, now);
            assert(j < i);
            assert(exists|j: int|
                0 <= j < i && pairs[j].0@ == k && spec_stale_mapping(pairs[j].1@, now));
        }
    }
}

/// The versions-table key for one package and version.
fn version_key(crate_name: &str, version: &str) -> (r: Vec<u8>)
    ensures
        r@ == spec_version_key(crate_name@, version@),
{
    let mut s = crate_name.to_owned();
    s.append(":");
    s.append(version);
    proof {
        assert(s@ =~= crate_name@ + ":"@ + version@);
    }
    str_to_bytes(s.as_str())
}

/// The common prefix of one package's versions-table keys.
fn version_prefix(crate_name: &str) -> (r: Vec<u8>)
    ensures
        r@ == spec_version_prefix(crate_name@),
{
    let mut s = crate_name.to_owned();
    s.append(":");
    proof {
        assert(s@ =~= crate_name@ + ":"@);
    }
    str_to_bytes(s.as_str())
}

/// What a prefix scan with lazy expiry leaves behind: `list` holds exactly
/// the fresh records that stood under the prefix in `vt0`, the table ends
/// as `vt1`, which is `vt0` without the prefix's stale records, everything
/// else untouched.
pub open spec fn spec_scan_result(
    list: Seq<VersionInfo>,
    p: Seq<u8>,
    vt0: Map<Seq<u8>, Seq<u8>>,
    vt1: Map<Seq<u8>, Seq<u8>>,
    now: u64,
) -> bool {
    &&& forall|t: int|
        0 <= t < list.len() ==> now <= list[t].expires_at && spec_version_info_encodable(list[t])
            && exists|k: Seq<u8>|
            #![auto]
            spec_bytes_prefix(p, k) && vt0.contains_pair(k, spec_enc_version_info(list[t]))
    &&& forall|k: Seq<u8>|
        #![auto]
        vt0.contains_key(k) && spec_bytes_prefix(p, k) && spec_fresh_version(vt0[k], now)
            ==> exists|t: int| 0 <= t < list.len() && spec_enc_version_info(list[t]) == vt0[k]
    &&& forall|k: Seq<u8>|
        #![auto]
        vt1.contains_key(k) == (vt0.contains_key(k) && !(spec_bytes_prefix(p, k)
            && spec_stale_version(vt0[k], now)))
    &&& forall|k: Seq<u8>| #![auto] vt1.contains_key(k) ==> vt1[k] == vt0[k]
}

/// What a full sweep of the versions table leaves behind: exactly the
/// entries that were not stale records, untouched.
pub open spec fn spec_versions_swept(
    vt0: Map<Seq<u8>, Seq<u8>>,
    vt1: Map<Seq<u8>, Seq<u8>>,
    now: u64,
) -> bool {
    &&& forall|k: Seq<u8>|
        #![auto]
        vt1.contains_key(k) == (vt0.contains_key(k) && !spec_stale_version(vt0[k], now))
    &&& forall|k: Seq<u8>| #![auto] vt1.contains_key(k) ==> vt1[k] == vt0[k]
}

/// What a full sweep of the latest-version table leaves behind.
pub open spec fn spec_mappings_swept(
    lt0: Map<Seq<u8>, Seq<u8>>,
    lt1: Map<Seq<u8>, Seq<u8>>,
    now: u64,
) -> bool {
    &&& forall|k: Seq<u8>|
        #![auto]
        lt1.contains_key(k) == (lt0.contains_key(k) && !spec_stale_mapping(lt0[k], now))
    &&& forall|k: Seq<u8>| #![auto] lt1.contains_key(k) ==> lt1[k] == lt0[k]
}

/// Sweep completeness: after a sweep, nothing standing in either table is
/// a record past its TTL — whatever bytes remain under a key are not the
/// encoding of an expired record.
pub proof fn lemma_sweep_completeness(
    vt0: Map<Seq<u8>, Seq<u8>>,
    vt1: Map<Seq<u8>, Seq<u8>>,
    lt0: Map<Seq<u8>, Seq<u8>>,
    lt1: Map<Seq<u8>, Seq<u8>>,
    now: u64,
)
    requires
        spec_versions_swept(vt0, vt1, now),
        spec_mappings_swept(lt0, lt1, now),
    ensures
        forall|k: Seq<u8>| #[trigger] vt1.contains_key(k) ==> !spec_stale_version(vt1[k], now),
        forall|k: Seq<u8>| #[trigger] lt1.contains_key(k) ==> !spec_stale_mapping(lt1[k], now),
{
    assert forall|k: Seq<u8>| #[trigger]
        vt1.contains_key(k) implies !spec_stale_version(vt1[k], now) by {
        assert(vt1[k] == vt0[k]);
    }
    assert forall|k: Seq<u8>| #[trigger]
        lt1.contains_key(k) implies !spec_stale_mapping(lt1[k], now) by {
        assert(lt1[k] == lt0[k]);
    }
}

/// A weaker, unconditional bound on any sweep of the versions table, held
/// even when the sweep stops early on an engine failure: nothing was added
/// or altered, and nothing fresh was removed.
#[verifier::opaque]
pub open spec fn spec_versions_sweep_bounded(
    vt0: Map<Seq<u8>, Seq<u8>>,
    vt1: Map<Seq<u8>, Seq<u8>>,
    now: u64,
) -> bool {
    &&& forall|k: Seq<u8>| #[trigger] vt1.contains_key(k) ==> vt0.contains_key(k) && vt1[k] == vt0[k]
    &&& forall|k: Seq<u8>|
        #[trigger] vt0.contains_key(k) ==> (!spec_stale_version(vt0[k], now) ==> vt1.contains_key(
            k,
        ))
}

/// The same unconditional bound for the latest-version table.
#[verifier::opaque]
pub open spec fn spec_mappings_sweep_bounded(
    lt0: Map<Seq<u8>, Seq<u8>>,
    lt1: Map<Seq<u8>, Seq<u8>>,
    now: u64,
) -> bool {
    &&& forall|k: Seq<u8>| #[trigger] lt1.contains_key(k) ==> lt0.contains_key(k) && lt1[k] == lt0[k]
    &&& forall|k: Seq<u8>|
        #[trigger] lt0.contains_key(k) ==> (!spec_stale_mapping(lt0[k], now) ==> lt1.contains_key(
            k,
        ))
}

proof fn lemma_v_bounded_refl(m: Map<Seq<u8>, Seq<u8>>, now: u64)
    ensures
        spec_versions_sweep_bounded(m, m, now),
{
    reveal(spec_versions_sweep_bounded);
}

proof fn lemma_m_bounded_refl(m: Map<Seq<u8>, Seq<u8>>, now: u64)
    ensures
        spec_mappings_sweep_bounded(m, m, now),
{
    reveal(spec_mappings_sweep_bounded);
}

proof fn lemma_v_swept_implies_bounded(vt0: Map<Seq<u8>, Seq<u8>>, vt1: Map<Seq<u8>, Seq<u8>>, now: u64)
    requires
        spec_versions_swept(vt0, vt1, now),
    ensures
        spec_versions_sweep_bounded(vt0, vt1, now),
{
    reveal(spec_versions_sweep_bounded);
}

proof fn lemma_m_swept_implies_bounded(lt0: Map<Seq<u8>, Seq<u8>>, lt1: Map<Seq<u8>, Seq<u8>>, now: u64)
    requires
        spec_mappings_swept(lt0, lt1, now),
    ensures
        spec_mappings_sweep_bounded(lt0, lt1, now),
{
    reveal(spec_mappings_sweep_bounded);
}

/// The bound holds mid-sweep of the versions table.
proof fn lemma_v_bounded_of_inv(
    pairs: Seq<(Vec<u8>, Vec<u8>)>,
    i: int,
    now: u64,
    cur: Map<Seq<u8>, Seq<u8>>,
    vt0: Map<Seq<u8>, Seq<u8>>,
)
    requires
        sweep_v_inv(pairs, i, now, cur, vt0),
        spec_lists_entries(vt0, pairs),
        0 <= i <= pairs.len(),
    ensures
        spec_versions_sweep_bounded(vt0, cur, now),
{
    reveal(sweep_v_inv);
    reveal(spec_versions_sweep_bounded);
    assert forall|k: Seq<u8>| #[trigger]
        vt0.contains_key(k) implies (!spec_stale_version(vt0[k], now) ==> cur.contains_key(k)) by {
        if !spec_stale_version(vt0[k], now) {
            if exists|j: int|
                0 <= j < i && pairs[j].0@ == k && spec_stale_version(pairs[j].1@, now) {
                let j = choose|j: int|
                    0 <= j < i && pairs[j].0@ == k && spec_stale_version(pairs[j].1@, now);
                assert(vt0.contains_pair(pairs[j].0@, pairs[j].1@));
                assert(pairs[j].1@ == vt0[k]);
            }
        }
    }
}

/// The bound holds mid-sweep of the latest-version table.
proof fn lemma_m_bounded_of_inv(
    pairs: Seq<(Vec<u8>, Vec<u8>)>,
    i: int,
    now: u64,
    cur: Map<Seq<u8>, Seq<u8>>,
    lt0: Map<Seq<u8>, Seq<u8>>,
)
    requires
        sweep_m_inv(pairs, i, now, cur, lt0),
        spec_lists_entries(lt0, pairs),
        0 <= i <= pairs.len(),
    ensures
        spec_mappings_sweep_bounded(lt0, cur, now),
{
    reveal(sweep_m_inv);
    reveal(spec_mappings_sweep_bounded);
    assert forall|k: Seq<u8>| #[trigger]
        lt0.contains_key(k) implies (!spec_stale_mapping(lt0[k], now) ==> cur.contains_key(k)) by {
        if !spec_stale_mapping(lt0[k], now) {
            if exists|j: int|
                0 <= j < i && pairs[j].0@ == k && spec_stale_mapping(pairs[j].1@, now) {
                let j = choose|j: int|
                    0 <= j < i && pairs[j].0@ == k && spec_stale_mapping(pairs[j].1@, now);
                assert(lt0.contains_pair(pairs[j].0@, pairs[j].1@));
                assert(pairs[j].1@ == lt0[k]);
            }
        }
    }
}

/// The bound survives one more removal of a key whose stored bytes were
/// stale, and survives the removal not happening at all.
proof fn lemma_v_bounded_remove(
    vt0: Map<Seq<u8>, Seq<u8>>,
    cur: Map<Seq<u8>, Seq<u8>>,
    new: Map<Seq<u8>, Seq<u8>>,
    kk: Seq<u8>,
    now: u64,
)
    requires
        spec_versions_sweep_bounded(vt0, cur, now),
        new == cur || new == cur.remove(kk),
        vt0.contains_key(kk) ==> spec_stale_version(vt0[kk], now),
    ensures
        spec_versions_sweep_bounded(vt0, new, now),
{
    reveal(spec_versions_sweep_bounded);
}

/// The same, for the latest-version table.
proof fn lemma_m_bounded_remove(
    lt0: Map<Seq<u8>, Seq<u8>>,
    cur: Map<Seq<u8>, Seq<u8>>,
    new: Map<Seq<u8>, Seq<u8>>,
    kk: Seq<u8>,
    now: u64,
)
    requires
        spec_mappings_sweep_bounded(lt0, cur, now),
        new == cur || new == cur.remove(kk),
        lt0.contains_key(kk) ==> spec_stale_mapping(lt0[kk], now),
    ensures
        spec_mappings_sweep_bounded(lt0, new, now),
{
    reveal(spec_mappings_sweep_bounded);
}

/// The running state of the versions-table sweep after `i` processed pairs.
#[verifier::opaque]
spec fn sweep_v_inv(
    pairs: Seq<(Vec<u8>, Vec<u8>)>,
    i: int,
    now: u64,
    cur: Map<Seq<u8>, Seq<u8>>,
    vt0: Map<Seq<u8>, Seq<u8>>,
) -> bool {
    &&& forall|k: Seq<u8>|
        #![auto]
        cur.contains_key(k) == (vt0.contains_key(k) && !(exists|j: int|
            0 <= j < i && pairs[j].0@ == k && spec_stale_version(pairs[j].1@, now)))
    &&& forall|k: Seq<u8>| #![auto] cur.contains_key(k) ==> cur[k] == vt0[k]
}

/// The running state of the latest-table sweep after `i` processed pairs.
#[verifier::opaque]
spec fn sweep_m_inv(
    pairs: Seq<(Vec<u8>, Vec<u8>)>,
    i: int,
    now: u64,
    cur: Map<Seq<u8>, Seq<u8>>,
    lt0: Map<Seq<u8>, Seq<u8>>,
) -> bool {
    &&& forall|k: Seq<u8>|
        #![auto]
        cur.contains_key(k) == (lt0.contains_key(k) && !(exists|j: int|
            0 <= j < i && pairs[j].0@ == k && spec_stale_mapping(pairs[j].1@, now)))
    &&& forall|k: Seq<u8>| #![auto] cur.contains_key(k) ==> cur[k] == lt0[k]
}

proof fn lemma_sweep_v_init(pairs: Seq<(Vec<u8>, Vec<u8>)>, now: u64, vt0: Map<Seq<u8>, Seq<u8>>)
    ensures
        sweep_v_inv(pairs, 0, now, vt0, vt0),
{
    reveal(sweep_v_inv);
}

proof fn lemma_sweep_v_step_stale(
    info: VersionInfo,
    pairs: Seq<(Vec<u8>, Vec<u8>)>,
    i: int,
    now: u64,
    cur: Map<Seq<u8>, Seq<u8>>,
    new: Map<Seq<u8>, Seq<u8>>,
    vt0: Map<Seq<u8>, Seq<u8>>,
)
    requires
        sweep_v_inv(pairs, i, now, cur, vt0),
        0 <= i < pairs.len(),
        spec_version_info_encodable(info),
        pairs[i].1@ == spec_enc_version_info(info),
        now > info.expires_at,
        new == cur.remove(pairs[i].0@),
    ensures
        sweep_v_inv(pairs, i + 1, now, new, vt0),
{
    reveal(sweep_v_inv);
    lemma_version_witness(pairs[i].1@, info, now);
    lemma_sweep_version_step(pairs, i, now, cur, new, vt0);
}

proof fn lemma_sweep_v_step_keep(
    pairs: Seq<(Vec<u8>, Vec<u8>)>,
    i: int,
    now: u64,
    cur: Map<Seq<u8>, Seq<u8>>,
    vt0: Map<Seq<u8>, Seq<u8>>,
)
    requires
        sweep_v_inv(pairs, i, now, cur, vt0),
        0 <= i < pairs.len(),
        !spec_stale_version(pairs[i].1@, now),
    ensures
        sweep_v_inv(pairs, i + 1, now, cur, vt0),
{
    reveal(sweep_v_inv);
    lemma_exists_step_no_removal(pairs, i, now, cur, vt0);
}

proof fn lemma_sweep_v_finish(
    pairs: Seq<(Vec<u8>, Vec<u8>)>,
    now: u64,
    cur: Map<Seq<u8>, Seq<u8>>,
    vt0: Map<Seq<u8>, Seq<u8>>,
)
    requires
        sweep_v_inv(pairs, pairs.len() as int, now, cur, vt0),
        spec_lists_entries(vt0, pairs),
    ensures
        spec_versions_swept(vt0, cur, now),
{
    reveal(sweep_v_inv);
    let n = pairs.len() as int;
    assert forall|k: Seq<u8>|
        #![auto]
        cur.contains_key(k) == (vt0.contains_key(k) && !spec_stale_version(vt0[k], now)) by {
        if vt0.contains_key(k) && spec_stale_version(vt0[k], now) {
            let j = choose|j: int| 0 <= j < pairs.len() && pairs[j].0@ == k;
            assert(vt0.contains_pair(pairs[j].0@, pairs[j].1@));
            assert(pairs[j].1@ == vt0[k]);
            assert(!cur.contains_key(k));
        }
        if exists|j: int| 0 <= j < n && pairs[j].0@ == k && spec_stale_version(pairs[j].1@, now) {
            let j = choose|j: int|
                0 <= j < n && pairs[j].0@ == k && spec_stale_version(pairs[j].1@, now);
            assert(vt0.contains_pair(pairs[j].0@, pairs[j].1@));
            assert(spec_stale_version(vt0[k], now));
        }
    }
}

proof fn lemma_sweep_m_init(pairs: Seq<(Vec<u8>, Vec<u8>)>, now: u64, lt0: Map<Seq<u8>, Seq<u8>>)
    ensures
        sweep_m_inv(pairs, 0, now, lt0, lt0),
{
    reveal(sweep_m_inv);
}

proof fn lemma_sweep_m_step_stale(
    mapping: LatestVersionMapping,
    pairs: Seq<(Vec<u8>, Vec<u8>)>,
    i: int,
    now: u64,
    cur: Map<Seq<u8>, Seq<u8>>,
    new: Map<Seq<u8>, Seq<u8>>,
    lt0: Map<Seq<u8>, Seq<u8>>,
)
    requires
        sweep_m_inv(pairs, i, now, cur, lt0),
        0 <= i < pairs.len(),
        spec_mapping_encodable(mapping),
        pairs[i].1@ == spec_enc_mapping(mapping),
        now > mapping.expires_at,
        new == cur.remove(pairs[i].0@),
    ensures
        sweep_m_inv(pairs, i + 1, now, new, lt0),
{
    reveal(sweep_m_inv);
    lemma_mapping_witness(pairs[i].1@, mapping, now);
    lemma_sweep_mapping_step(pairs, i, now, cur, new, lt0);
}

proof fn lemma_sweep_m_step_keep(
    pairs: Seq<(Vec<u8>, Vec<u8>)>,
    i: int,
    now: u64,
    cur: Map<Seq<u8>, Seq<u8>>,
    lt0: Map<Seq<u8>, Seq<u8>>,
)
    requires
        sweep_m_inv(pairs, i, now, cur, lt0),
        0 <= i < pairs.len(),
        !spec_stale_mapping(pairs[i].1@, now),
    ensures
        sweep_m_inv(pairs, i + 1, now, cur, lt0),
{
    reveal(sweep_m_inv);
    lemma_mapping_exists_step_no_removal(pairs, i, now, cur, lt0);
}

proof fn lemma_sweep_m_finish(
    pairs: Seq<(Vec<u8>, Vec<u8>)>,
    now: u64,
    cur: Map<Seq<u8>, Seq<u8>>,
    lt0: Map<Seq<u8>, Seq<u8>>,
)
    requires
        sweep_m_inv(pairs, pairs.len() as int, now, cur, lt0),
        spec_lists_entries(lt0, pairs),
    ensures
        spec_mappings_swept(lt0, cur, now),
{
    reveal(sweep_m_inv);
    let n = pairs.len() as int;
    assert forall|k: Seq<u8>|
        #![auto]
        cur.contains_key(k) == (lt0.contains_key(k) && !spec_stale_mapping(lt0[k], now)) by {
        if lt0.contains_key(k) && spec_stale_mapping(lt0[k], now) {
            let j = choose|j: int| 0 <= j < pairs.len() && pairs[j].0@ == k;
            assert(lt0.contains_pair(pairs[j].0@, pairs[j].1@));
            assert(pairs[j].1@ == lt0[k]);
            assert(!cur.contains_key(k));
        }
        if exists|j: int| 0 <= j < n && pairs[j].0@ == k && spec_stale_mapping(pairs[j].1@, now) {
            let j = choose|j: int|
                0 <= j < n && pairs[j].0@ == k && spec_stale_mapping(pairs[j].1@, now);
            assert(lt0.contains_pair(pairs[j].0@, pairs[j].1@));
            assert(spec_stale_mapping(lt0[k], now));
        }
    }
}

/// The running state of the prefix scan after `i` processed pairs.
#[verifier::opaque]
spec fn gav_inv(
    out: Seq<VersionInfo>,
    pairs: Seq<(Vec<u8>, Vec<u8>)>,
    i: int,
    now: u64,
    cur: Map<Seq<u8>, Seq<u8>>,
    vt0: Map<Seq<u8>, Seq<u8>>,
) -> bool {
    &&& forall|t: int|
        0 <= t < out.len() ==> now <= out[t].expires_at && spec_version_info_encodable(out[t])
            && exists|j: int| #![auto] 0 <= j < i && pairs[j].1@ == spec_enc_version_info(out[t])
    &&& forall|j: int|
        #![auto]
        0 <= j < i && spec_fresh_version(pairs[j].1@, now) ==> exists|t: int|
            0 <= t < out.len() && spec_enc_version_info(out[t]) == pairs[j].1@
    &&& forall|k: Seq<u8>|
        #![auto]
        cur.contains_key(k) == (vt0.contains_key(k) && !(exists|j: int|
            0 <= j < i && pairs[j].0@ == k && spec_stale_version(pairs[j].1@, now)))
    &&& forall|k: Seq<u8>| #![auto] cur.contains_key(k) ==> cur[k] == vt0[k]
}

/// A weaker, unconditional bound on the prefix scan's lazy expiry, held
/// even when it stops early on an engine failure: nothing was added or
/// altered, and nothing was removed except stale records under the prefix.
#[verifier::opaque]
pub open spec fn spec_scan_sweep_bounded(
    p: Seq<u8>,
    vt0: Map<Seq<u8>, Seq<u8>>,
    vt1: Map<Seq<u8>, Seq<u8>>,
    now: u64,
) -> bool {
    &&& forall|k: Seq<u8>| #[trigger] vt1.contains_key(k) ==> vt0.contains_key(k) && vt1[k] == vt0[k]
    &&& forall|k: Seq<u8>|
        #[trigger] vt0.contains_key(k) ==> (!(spec_bytes_prefix(p, k) && spec_stale_version(
            vt0[k],
            now,
        )) ==> vt1.contains_key(k))
}

proof fn lemma_scan_bounded_refl(p: Seq<u8>, m: Map<Seq<u8>, Seq<u8>>, now: u64)
    ensures
        spec_scan_sweep_bounded(p, m, m, now),
{
    reveal(spec_scan_sweep_bounded);
}

/// The bound holds mid-scan.
proof fn lemma_scan_bounded_of_inv(
    out: Seq<VersionInfo>,
    pairs: Seq<(Vec<u8>, Vec<u8>)>,
    i: int,
    now: u64,
    cur: Map<Seq<u8>, Seq<u8>>,
    vt0: Map<Seq<u8>, Seq<u8>>,
    p: Seq<u8>,
)
    requires
        gav_inv(out, pairs, i, now, cur, vt0),
        spec_lists_prefix_entries(vt0, p, pairs),
        0 <= i <= pairs.len(),
    ensures
        spec_scan_sweep_bounded(p, vt0, cur, now),
{
    reveal(gav_inv);
    reveal(spec_scan_sweep_bounded);
    assert forall|k: Seq<u8>| #[trigger]
        vt0.contains_key(k) implies (!(spec_bytes_prefix(p, k) && spec_stale_version(
        vt0[k],
        now,
    )) ==> cur.contains_key(k)) by {
        if !(spec_bytes_prefix(p, k) && spec_stale_version(vt0[k], now)) {
            if exists|j: int|
                0 <= j < i && pairs[j].0@ == k && spec_stale_version(pairs[j].1@, now) {
                let j = choose|j: int|
                    0 <= j < i && pairs[j].0@ == k && spec_stale_version(pairs[j].1@, now);
                assert(vt0.contains_pair(pairs[j].0@, pairs[j].1@));
                assert(spec_bytes_prefix(p, pairs[j].0@));
                assert(pairs[j].1@ == vt0[k]);
            }
        }
    }
}

/// The bound survives one more removal of a prefixed key whose stored
/// bytes were stale, and survives the removal not happening at all.
proof fn lemma_scan_bounded_remove(
    p: Seq<u8>,
    vt0: Map<Seq<u8>, Seq<u8>>,
    cur: Map<Seq<u8>, Seq<u8>>,
    new: Map<Seq<u8>, Seq<u8>>,
    kk: Seq<u8>,
    now: u64,
)
    requires
        spec_scan_sweep_bounded(p, vt0, cur, now),
        new == cur || new == cur.remove(kk),
        vt0.contains_key(kk) ==> (spec_bytes_prefix(p, kk) && spec_stale_version(vt0[kk], now)),
    ensures
        spec_scan_sweep_bounded(p, vt0, new, now),
{
    reveal(spec_scan_sweep_bounded);
}

/// The exact scan result implies the unconditional bound.
proof fn lemma_scan_result_implies_bounded(
    list: Seq<VersionInfo>,
    p: Seq<u8>,
    vt0: Map<Seq<u8>, Seq<u8>>,
    vt1: Map<Seq<u8>, Seq<u8>>,
    now: u64,
)
    requires
        spec_scan_result(list, p, vt0, vt1, now),
    ensures
        spec_scan_sweep_bounded(p, vt0, vt1, now),
{
    reveal(spec_scan_sweep_bounded);
    assert forall|k: Seq<u8>| #[trigger]
        vt1.contains_key(k) implies vt0.contains_key(k) && vt1[k] == vt0[k] by {
        if spec_bytes_prefix(p, k) && spec_stale_version(vt0[k], now) {
        }
    }
    assert forall|k: Seq<u8>| #[trigger]
        vt0.contains_key(k) implies (!(spec_bytes_prefix(p, k) && spec_stale_version(
        vt0[k],
        now,
    )) ==> vt1.contains_key(k)) by {
        if spec_bytes_prefix(p, k) && spec_stale_version(vt0[k], now) {
        }
    }
}

proof fn lemma_gav_init(pairs: Seq<(Vec<u8>, Vec<u8>)>, now: u64, vt0: Map<Seq<u8>, Seq<u8>>)
    ensures
        gav_inv(Seq::empty(), pairs, 0, now, vt0, vt0),
{
    reveal(gav_inv);
}

#[verifier::rlimit(100)]
#[verifier::spinoff_prover]
proof fn lemma_gav_step_fresh(
    out: Seq<VersionInfo>,
    info: VersionInfo,
    pairs: Seq<(Vec<u8>, Vec<u8>)>,
    i: int,
    now: u64,
    cur: Map<Seq<u8>, Seq<u8>>,
    vt0: Map<Seq<u8>, Seq<u8>>,
)
    requires
        gav_inv(out, pairs, i, now, cur, vt0),
        0 <= i < pairs.len(),
        spec_version_info_encodable(info),
        pairs[i].1@ == spec_enc_version_info(info),
        now <= info.expires_at,
    ensures
        gav_inv(out.push(info), pairs, i + 1, now, cur, vt0),
{
    reveal(gav_inv);
    lemma_version_witness(pairs[i].1@, info, now);
    let out1 = out.push(info);
    assert forall|t: int|
        0 <= t < out1.len() implies now <= out1[t].expires_at && spec_version_info_encodable(
        out1[t],
    ) && exists|j: int| #![auto] 0 <= j < i + 1 && pairs[j].1@ == spec_enc_version_info(
        out1[t],
    ) by {
        if t < out.len() {
            assert(out1[t] == out[t]);
            let j = choose|j: int|
                #![auto]
                0 <= j < i && pairs[j].1@ == spec_enc_version_info(out[t]);
            assert(0 <= j < i + 1 && pairs[j].1@ == spec_enc_version_info(out1[t]));
        } else {
            assert(out1[t] == info);
            assert(pairs[i].1@ == spec_enc_version_info(out1[t]));
        }
    }
    assert forall|j: int|
        #![auto]
        0 <= j < i + 1 && spec_fresh_version(pairs[j].1@, now) implies exists|t: int|
        0 <= t < out1.len() && spec_enc_version_info(out1[t]) == pairs[j].1@ by {
        if j == i {
            assert(out1[out1.len() - 1] == info);
            assert(spec_enc_version_info(out1[out1.len() - 1]) == pairs[j].1@);
        } else {
            let t = choose|t: int|
                0 <= t < out.len() && spec_enc_version_info(out[t]) == pairs[j].1@;
            assert(out1[t] == out[t]);
            assert(spec_enc_version_info(out1[t]) == pairs[j].1@);
        }
    }
    lemma_exists_step_no_removal(pairs, i, now, cur, vt0);
}

proof fn lemma_gav_step_stale(
    out: Seq<VersionInfo>,
    info: VersionInfo,
    pairs: Seq<(Vec<u8>, Vec<u8>)>,
    i: int,
    now: u64,
    cur: Map<Seq<u8>, Seq<u8>>,
    new: Map<Seq<u8>, Seq<u8>>,
    vt0: Map<Seq<u8>, Seq<u8>>,
)
    requires
        gav_inv(out, pairs, i, now, cur, vt0),
        0 <= i < pairs.len(),
        spec_version_info_encodable(info),
        pairs[i].1@ == spec_enc_version_info(info),
        now > info.expires_at,
        new == cur.remove(pairs[i].0@),
    ensures
        gav_inv(out, pairs, i + 1, now, new, vt0),
{
    reveal(gav_inv);
    lemma_version_witness(pairs[i].1@, info, now);
    lemma_sweep_version_step(pairs, i, now, cur, new, vt0);
}

proof fn lemma_gav_step_skip(
    out: Seq<VersionInfo>,
    pairs: Seq<(Vec<u8>, Vec<u8>)>,
    i: int,
    now: u64,
    cur: Map<Seq<u8>, Seq<u8>>,
    vt0: Map<Seq<u8>, Seq<u8>>,
)
    requires
        gav_inv(out, pairs, i, now, cur, vt0),
        0 <= i < pairs.len(),
        forall|v: VersionInfo|
            !(spec_version_info_encodable(v) && pairs[i].1@ == spec_enc_version_info(v)),
    ensures
        gav_inv(out, pairs, i + 1, now, cur, vt0),
{
    reveal(gav_inv);
    lemma_version_undecodable(pairs[i].1@, now);
    lemma_exists_step_no_removal(pairs, i, now, cur, vt0);
}

proof fn lemma_gav_finish(
    out: Seq<VersionInfo>,
    pairs: Seq<(Vec<u8>, Vec<u8>)>,
    now: u64,
    cur: Map<Seq<u8>, Seq<u8>>,
    vt0: Map<Seq<u8>, Seq<u8>>,
    p: Seq<u8>,
)
    requires
        gav_inv(out, pairs, pairs.len() as int, now, cur, vt0),
        spec_lists_prefix_entries(vt0, p, pairs),
    ensures
        spec_scan_result(out, p, vt0, cur, now),
{
    reveal(gav_inv);
    let n = pairs.len() as int;
    assert forall|t: int|
        0 <= t < out.len() implies now <= out[t].expires_at && spec_version_info_encodable(
        out[t],
    ) && exists|k: Seq<u8>|
        #![auto]
        spec_bytes_prefix(p, k) && vt0.contains_pair(k, spec_enc_version_info(out[t])) by {
        let j = choose|j: int| #![auto] 0 <= j < n && pairs[j].1@ == spec_enc_version_info(out[t]);
        assert(vt0.contains_pair(pairs[j].0@, pairs[j].1@));
        assert(spec_bytes_prefix(p, pairs[j].0@));
    }
    assert forall|k: Seq<u8>|
        vt0.contains_key(k) && spec_bytes_prefix(p, k) && spec_fresh_version(
            vt0[k],
            now,
        ) implies exists|t: int|
        0 <= t < out.len() && spec_enc_version_info(out[t]) == vt0[k] by {
        let j = choose|j: int| 0 <= j < pairs.len() && pairs[j].0@ == k;
        assert(vt0.contains_pair(pairs[j].0@, pairs[j].1@));
        assert(pairs[j].1@ == vt0[k]);
        assert(spec_fresh_version(pairs[j].1@, now));
    }
    assert forall|k: Seq<u8>|
        #![auto]
        cur.contains_key(k) == (vt0.contains_key(k) && !(spec_bytes_prefix(p, k)
            && spec_stale_version(vt0[k], now))) by {
        if vt0.contains_key(k) && spec_bytes_prefix(p, k) && spec_stale_version(vt0[k], now) {
            let j = choose|j: int| 0 <= j < pairs.len() && pairs[j].0@ == k;
            assert(vt0.contains_pair(pairs[j].0@, pairs[j].1@));
            assert(pairs[j].1@ == vt0[k]);
            assert(!cur.contains_key(k));
        }
        if exists|j: int|
            0 <= j < n && pairs[j].0@ == k && spec_stale_version(pairs[j].1@, now) {
            let j = choose|j: int|
                0 <= j < n && pairs[j].0@ == k && spec_stale_version(pairs[j].1@, now);
            assert(vt0.contains_pair(pairs[j].0@, pairs[j].1@));
            assert(spec_bytes_prefix(p, k) && spec_stale_version(vt0[k], now));
        }
    }
}

/// How many stored blobs are well-formed latest-version pointers.
pub open spec fn spec_count_mappings(s: Seq<(Vec<u8>, Vec<u8>)>) -> nat
    decreases s.len(),
{
    if s.len() == 0 {
        0
    } else {
        (if spec_is_mapping(s[0].1@) {
            1nat
        } else {
            0nat
        }) + spec_count_mappings(s.skip(1))
    }
}

/// How many stored blobs are well-formed version records.
pub open spec fn spec_count_versions(s: Seq<(Vec<u8>, Vec<u8>)>) -> nat
    decreases s.len(),
{
    if s.len() == 0 {
        0
    } else {
        (if spec_is_version(s[0].1@) {
            1nat
        } else {
            0nat
        }) + spec_count_versions(s.skip(1))
    }
}

/// How many stored blobs are pointers past their TTL at `now`.
pub open spec fn spec_count_stale_mappings(s: Seq<(Vec<u8>, Vec<u8>)>, now: u64) -> nat
    decreases s.len(),
{
    if s.len() == 0 {
        0
    } else {
        (if spec_stale_mapping(s[0].1@, now) {
            1nat
        } else {
            0nat
        }) + spec_count_stale_mappings(s.skip(1), now)
    }
}

/// How many stored blobs are records past their TTL at `now`.
pub open spec fn spec_count_stale_versions(s: Seq<(Vec<u8>, Vec<u8>)>, now: u64) -> nat
    decreases s.len(),
{
    if s.len() == 0 {
        0
    } else {
        (if spec_stale_version(s[0].1@, now) {
            1nat
        } else {
            0nat
        }) + spec_count_stale_versions(s.skip(1), now)
    }
}

proof fn lemma_count_mappings_step(s: Seq<(Vec<u8>, Vec<u8>)>, i: int)
    requires
        0 <= i < s.len(),
    ensures
        spec_count_mappings(s.skip(i)) == (if spec_is_mapping(s[i].1@) {
            1nat
        } else {
            0nat
        }) + spec_count_mappings(s.skip(i + 1)),
{
    assert(s.skip(i)[0] == s[i]);
    assert(s.skip(i).skip(1) =~= s.skip(i + 1));
}

proof fn lemma_count_versions_step(s: Seq<(Vec<u8>, Vec<u8>)>, i: int)
    requires
        0 <= i < s.len(),
    ensures
        spec_count_versions(s.skip(i)) == (if spec_is_version(s[i].1@) {
            1nat
        } else {
            0nat
        }) + spec_count_versions(s.skip(i + 1)),
{
    assert(s.skip(i)[0] == s[i]);
    assert(s.skip(i).skip(1) =~= s.skip(i + 1));
}

proof fn lemma_count_stale_mappings_step(s: Seq<(Vec<u8>, Vec<u8>)>, now: u64, i: int)
    requires
        0 <= i < s.len(),
    ensures
        spec_count_stale_mappings(s.skip(i), now) == (if spec_stale_mapping(s[i].1@, now) {
            1nat
        } else {
            0nat
        }) + spec_count_stale_mappings(s.skip(i + 1), now),
{
    assert(s.skip(i)[0] == s[i]);
    assert(s.skip(i).skip(1) =~= s.skip(i + 1));
}

proof fn lemma_count_stale_versions_step(s: Seq<(Vec<u8>, Vec<u8>)>, now: u64, i: int)
    requires
        0 <= i < s.len(),
    ensures
        spec_count_stale_versions(s.skip(i), now) == (if spec_stale_version(s[i].1@, now) {
            1nat
        } else {
            0nat
        }) + spec_count_stale_versions(s.skip(i + 1), now),
{
    assert(s.skip(i)[0] == s[i]);
    assert(s.skip(i).skip(1) =~= s.skip(i + 1));
}

/// A sum capped at the largest count.
pub open spec fn spec_sat_add_usize(a: nat, b: nat) -> nat {
    if a + b > usize::MAX {
        usize::MAX as nat
    } else {
        a + b
    }
}

/// The running state of the eviction: no package whose stale pointer has
/// been processed so far is still in the in-process map.
#[verifier::opaque]
spec fn evict_inv(
    lpairs: Seq<(Vec<u8>, Vec<u8>)>,
    li: int,
    now: u64,
    cache: Map<Seq<char>, Seq<char>>,
) -> bool {
    forall|nm: Seq<char>|
        #![auto]
        cache.contains_key(nm) ==> !(exists|j: int|
            #![auto]
            0 <= j < li && spec_stale_mapping_named(lpairs[j].1@, now, nm))
}

proof fn lemma_evict_init(lpairs: Seq<(Vec<u8>, Vec<u8>)>, now: u64, cache: Map<Seq<char>, Seq<char>>)
    ensures
        evict_inv(lpairs, 0, now, cache),
{
    reveal(evict_inv);
}

proof fn lemma_evict_step_keep(
    lpairs: Seq<(Vec<u8>, Vec<u8>)>,
    li: int,
    now: u64,
    cache: Map<Seq<char>, Seq<char>>,
)
    requires
        evict_inv(lpairs, li, now, cache),
        0 <= li < lpairs.len(),
        forall|nm: Seq<char>| #![auto] !spec_stale_mapping_named(lpairs[li].1@, now, nm),
    ensures
        evict_inv(lpairs, li + 1, now, cache),
{
    reveal(evict_inv);
    assert forall|nm: Seq<char>|
        #![auto]
        cache.contains_key(nm) implies !(exists|j: int|
        #![auto]
        0 <= j < li + 1 && spec_stale_mapping_named(lpairs[j].1@, now, nm)) by {
        if exists|j: int| #![auto] 0 <= j < li + 1 && spec_stale_mapping_named(
            lpairs[j].1@,
            now,
            nm,
        ) {
            let j = choose|j: int|
                #![auto]
                0 <= j < li + 1 && spec_stale_mapping_named(lpairs[j].1@, now, nm);
            assert(j < li);
            assert(exists|j: int|
                #![auto]
                0 <= j < li && spec_stale_mapping_named(lpairs[j].1@, now, nm));
        }
    }
}

proof fn lemma_evict_step_stale(
    lpairs: Seq<(Vec<u8>, Vec<u8>)>,
    li: int,
    now: u64,
    cache: Map<Seq<char>, Seq<char>>,
    name: Seq<char>,
)
    requires
        evict_inv(lpairs, li, now, cache),
        0 <= li < lpairs.len(),
        forall|nm: Seq<char>|
            #![auto]
            spec_stale_mapping_named(lpairs[li].1@, now, nm) ==> nm == name,
    ensures
        evict_inv(lpairs, li + 1, now, cache.remove(name)),
{
    reveal(evict_inv);
    let new = cache.remove(name);
    assert forall|nm: Seq<char>|
        #![auto]
        new.contains_key(nm) implies !(exists|j: int|
        #![auto]
        0 <= j < li + 1 && spec_stale_mapping_named(lpairs[j].1@, now, nm)) by {
        assert(nm != name);
        assert(cache.contains_key(nm));
        if exists|j: int| #![auto] 0 <= j < li + 1 && spec_stale_mapping_named(
            lpairs[j].1@,
            now,
            nm,
        ) {
            let j = choose|j: int|
                #![auto]
                0 <= j < li + 1 && spec_stale_mapping_named(lpairs[j].1@, now, nm);
            assert(j < li);
            assert(exists|j: int|
                #![auto]
                0 <= j < li && spec_stale_mapping_named(lpairs[j].1@, now, nm));
        }
    }
}

proof fn lemma_evict_finish(
    lpairs: Seq<(Vec<u8>, Vec<u8>)>,
    now: u64,
    cache: Map<Seq<char>, Seq<char>>,
    lt0: Map<Seq<u8>, Seq<u8>>,
)
    requires
        evict_inv(lpairs, lpairs.len() as int, now, cache),
        spec_lists_entries(lt0, lpairs),
    ensures
        spec_stale_names_evicted(cache, lt0, now),
{
    reveal(evict_inv);
    reveal(spec_stale_names_evicted);
    let n = lpairs.len() as int;
    assert forall|nm: Seq<char>|
        #![auto]
        cache.contains_key(nm) implies !(exists|k: Seq<u8>|
        #![auto]
        lt0.contains_key(k) && spec_stale_mapping_named(lt0[k], now, nm)) by {
        if exists|k: Seq<u8>| #![auto] lt0.contains_key(k) && spec_stale_mapping_named(
            lt0[k],
            now,
            nm,
        ) {
            let k = choose|k: Seq<u8>|
                #![auto]
                lt0.contains_key(k) && spec_stale_mapping_named(lt0[k], now, nm);
            let j = choose|j: int| 0 <= j < lpairs.len() && lpairs[j].0@ == k;
            assert(lt0.contains_pair(lpairs[j].0@, lpairs[j].1@));
            assert(lpairs[j].1@ == lt0[k]);
            assert(exists|j: int|
                #![auto]
                0 <= j < n && spec_stale_mapping_named(lpairs[j].1@, now, nm));
        }
    }
}

/// The version index over one open database.
pub struct VersionManager {
    pub db: Database,
    pub versions_tree: StoreTree,
    pub latest_tree: StoreTree,
    pub memory_cache: StringMap,
    pub default_ttl: u64,
}

impl VersionManager {
    /// The in-process map is well formed.
    pub open spec fn wf(&self) -> bool {
        self.memory_cache.wf()
    }

    /// Opens (or creates) the durable store under the configured cache
    /// root and starts with an empty in-process map.
    pub fn new(config: &Config) -> (r: Result<Self, VersionManagerError>)
        ensures
            r matches Ok(m) ==> m.wf() && m.default_ttl == config.cache.default_ttl
                && m.memory_cache@ == Map::<Seq<char>, Seq<char>>::empty(),
            r is Err ==> r matches Err(VersionManagerError::DatabaseError(_)),
    {
        let mut path = config.cache.storage_path.clone();
        path.append("/versions_db");
        let db = match db_open(path.as_str(), 100 * 1024 * 1024, 5000, 1000, 30000) {
            Ok(db) => db,
            Err(e) => {
                return Err(VersionManagerError::DatabaseError(e));
            },
        };
        let versions_tree = match db_open_tree(&db, "versions") {
            Ok(t) => t,
            Err(e) => {
                return Err(VersionManagerError::DatabaseError(e));
            },
        };
        let latest_tree = match db_open_tree(&db, "latest_versions") {
            Ok(t) => t,
            Err(e) => {
                return Err(VersionManagerError::DatabaseError(e));
            },
        };
        Ok(
            VersionManager {
                db,
                versions_tree,
                latest_tree,
                memory_cache: StringMap::new(),
                default_ttl: config.cache.default_ttl,
            },
        )
    }

    /// The latest known version of a package: served from the in-process
    /// map when it is there (with no TTL check), else read through from the
    /// durable table, where a stale pointer is deleted and reported absent.
    pub fn get_latest_version(&mut self, crate_name: &str, now: u64) -> (r: Result<
        Option<String>,
        VersionManagerError,
    >)
        requires
            old(self).wf(),
        ensures
            final(self).wf(),
            final(self).default_ttl == old(self).default_ttl,
            tree_entries(final(self).versions_tree) == tree_entries(old(self).versions_tree),
            r matches Ok(Some(v)) ==> ({
                ||| (old(self).memory_cache@.contains_key(crate_name@) && v@ == old(
                    self,
                ).memory_cache@[crate_name@] && final(self).memory_cache@ == old(
                    self,
                ).memory_cache@ && tree_entries(final(self).latest_tree) == tree_entries(
                    old(self).latest_tree,
                ))
                ||| (exists|m: LatestVersionMapping|
                    {
                        &&& spec_mapping_encodable(m)
                        &&& tree_entries(old(self).latest_tree).contains_pair(
                            spec_latest_key(crate_name@),
                            spec_enc_mapping(m),
                        )
                        &&& now <= m.expires_at
                        &&& v@ == m.latest_version@
                        &&& tree_entries(final(self).latest_tree) == tree_entries(
                            old(self).latest_tree,
                        )
                        &&& final(self).memory_cache@ == old(self).memory_cache@.insert(
                            crate_name@,
                            m.latest_version@,
                        )
                    })
            }),
            r matches Ok(None) ==> ({
                let key = spec_latest_key(crate_name@);
                let lt0 = tree_entries(old(self).latest_tree);
                &&& !old(self).memory_cache@.contains_key(crate_name@)
                &&& final(self).memory_cache@ == old(self).memory_cache@
                &&& ({
                    ||| (!lt0.contains_key(key) && tree_entries(final(self).latest_tree) == lt0)
                    ||| (lt0.contains_key(key) && spec_stale_mapping(lt0[key], now) && tree_entries(
                        final(self).latest_tree,
                    ) == lt0.remove(key))
                })
                &&& !tree_entries(final(self).latest_tree).contains_key(key)
            }),
            old(self).memory_cache@.contains_key(crate_name@) ==> (r matches Ok(Some(v)) && v@
                == old(self).memory_cache@[crate_name@]),
    {
        match self.memory_cache.get(crate_name) {
            Some(v) => {
                return Ok(Some(v.clone()));
            },
            None => {},
        }
        let key = str_to_bytes(crate_name);
        let data = match tree_get(&self.latest_tree, &key) {
            Ok(Some(d)) => d,
            Ok(None) => {
                return Ok(None);
            },
            Err(e) => {
                return Err(VersionManagerError::DatabaseError(e));
            },
        };
        let mapping = match decode_mapping(&data) {
            Some(m) => m,
            None => {
                return Err(
                    VersionManagerError::SerializationError(
                        "stored latest-version pointer does not parse".to_owned(),
                    ),
                );
            },
        };
        if now > mapping.expires_at {
            proof {
                lemma_mapping_witness(data@, mapping, now);
            }
            match tree_remove(&mut self.latest_tree, &key) {
                Ok(()) => Ok(None),
                Err(e) => Err(VersionManagerError::DatabaseError(e)),
            }
        } else {
            self.memory_cache.insert(crate_name.to_owned(), mapping.latest_version.clone());
            Ok(Some(mapping.latest_version))
        }
    }

    /// Records `version` as the latest of a package, valid for the default
    /// TTL from `now`, in the durable table and the in-process map.
    pub fn set_latest_version(&mut self, crate_name: &str, version: &str, now: u64) -> (r: Result<
        (),
        VersionManagerError,
    >)
        requires
            old(self).wf(),
            now + old(self).default_ttl <= u64::MAX,
        ensures
            final(self).wf(),
            final(self).default_ttl == old(self).default_ttl,
            tree_entries(final(self).versions_tree) == tree_entries(old(self).versions_tree),
            r is Ok ==> ({
                &&& exists|m: LatestVersionMapping|
                    {
                        &&& spec_mapping_encodable(m)
                        &&& m.crate_name@ == crate_name@
                        &&& m.latest_version@ == version@
                        &&& m.updated_at == now
                        &&& m.expires_at == now + old(self).default_ttl
                        &&& tree_entries(final(self).latest_tree) == tree_entries(
                            old(self).latest_tree,
                        ).insert(spec_latest_key(crate_name@), spec_enc_mapping(m))
                    }
                &&& final(self).memory_cache@ == old(self).memory_cache@.insert(
                    crate_name@,
                    version@,
                )
            }),
            r is Err ==> final(self).memory_cache@ == old(self).memory_cache@,
            r is Err ==> r matches Err(VersionManagerError::DatabaseError(_)),
    {
        let expires_at = now + self.default_ttl;
        let mapping = LatestVersionMapping {
            crate_name: crate_name.to_owned(),
            latest_version: version.to_owned(),
            updated_at: now,
            expires_at,
        };
        let ghost gm = mapping;
        let data = encode_mapping(&mapping);
        let key = str_to_bytes(crate_name);
        match tree_insert(&mut self.latest_tree, &key, &data) {
            Ok(()) => {},
            Err(e) => {
                return Err(VersionManagerError::DatabaseError(e));
            },
        }
        self.memory_cache.insert(crate_name.to_owned(), version.to_owned());
        proof {
            assert(spec_mapping_encodable(gm) && tree_entries(self.latest_tree) == tree_entries(
                old(self).latest_tree,
            ).insert(spec_latest_key(crate_name@), spec_enc_mapping(gm)));
        }
        Ok(())
    }

    /// The stored record for one (package, version) pair: a record past its
    /// TTL is deleted and reported absent; a fresh one is returned as it
    /// was stored.
    pub fn get_version_info(&mut self, crate_name: &str, version: &str, now: u64) -> (r: Result<
        Option<VersionInfo>,
        VersionManagerError,
    >)
        requires
            old(self).wf(),
        ensures
            final(self).wf(),
            final(self).default_ttl == old(self).default_ttl,
            tree_entries(final(self).latest_tree) == tree_entries(old(self).latest_tree),
            final(self).memory_cache@ == old(self).memory_cache@,
            r matches Ok(Some(info)) ==> ({
                &&& spec_version_info_encodable(info)
                &&& tree_entries(old(self).versions_tree).contains_pair(
                    spec_version_key(crate_name@, version@),
                    spec_enc_version_info(info),
                )
                &&& now <= info.expires_at
                &&& tree_entries(final(self).versions_tree) == tree_entries(
                    old(self).versions_tree,
                )
            }),
            r matches Ok(None) ==> ({
                let key = spec_version_key(crate_name@, version@);
                let vt0 = tree_entries(old(self).versions_tree);
                ||| (!vt0.contains_key(key) && tree_entries(final(self).versions_tree) == vt0)
                ||| (vt0.contains_key(key) && spec_stale_version(vt0[key], now) && tree_entries(
                    final(self).versions_tree,
                ) == vt0.remove(key))
            }),
            r matches Ok(None) ==> !tree_entries(final(self).versions_tree).contains_key(
                spec_version_key(crate_name@, version@),
            ),
    {
        let key = version_key(crate_name, version);
        let data = match tree_get(&self.versions_tree, &key) {
            Ok(Some(d)) => d,
            Ok(None) => {
                return Ok(None);
            },
            Err(e) => {
                return Err(VersionManagerError::DatabaseError(e));
            },
        };
        let info = match decode_version_info(&data) {
            Some(v) => v,
            None => {
                return Err(
                    VersionManagerError::SerializationError(
                        "stored version record does not parse".to_owned(),
                    ),
                );
            },
        };
        if now > info.expires_at {
            proof {
                lemma_version_witness(data@, info, now);
            }
            match tree_remove(&mut self.versions_tree, &key) {
                Ok(()) => Ok(None),
                Err(e) => Err(VersionManagerError::DatabaseError(e)),
            }
        } else {
            Ok(Some(info))
        }
    }

    /// Stores a record for one (package, version) pair, replacing any
    /// previous one.
    pub fn set_version_info(
        &mut self,
        crate_name: &str,
        version: &str,
        version_info: VersionInfo,
    ) -> (r: Result<(), VersionManagerError>)
        requires
            old(self).wf(),
        ensures
            final(self).wf(),
            final(self).default_ttl == old(self).default_ttl,
            tree_entries(final(self).latest_tree) == tree_entries(old(self).latest_tree),
            final(self).memory_cache@ == old(self).memory_cache@,
            spec_version_info_encodable(version_info),
            r is Ok ==> tree_entries(final(self).versions_tree) == tree_entries(
                old(self).versions_tree,
            ).insert(
                spec_version_key(crate_name@, version@),
                spec_enc_version_info(version_info),
            ),
            r is Err ==> r matches Err(VersionManagerError::DatabaseError(_)),
    {
        let data = encode_version_info(&version_info);
        let key = version_key(crate_name, version);
        match tree_insert(&mut self.versions_tree, &key, &data) {
            Ok(()) => Ok(()),
            Err(e) => Err(VersionManagerError::DatabaseError(e)),
        }
    }

    /// Builds a record valid for the default TTL from `now` and stores it
    /// under the (package, version) key.
    pub fn create_version_info(
        &mut self,
        crate_name: &str,
        version: &str,
        download_path: &str,
        checksum: &str,
        yanked: bool,
        now: u64,
    ) -> (r: Result<VersionInfo, VersionManagerError>)
        requires
            old(self).wf(),
            now + old(self).default_ttl <= u64::MAX,
        ensures
            final(self).wf(),
            final(self).default_ttl == old(self).default_ttl,
            tree_entries(final(self).latest_tree) == tree_entries(old(self).latest_tree),
            final(self).memory_cache@ == old(self).memory_cache@,
            r matches Ok(info) ==> ({
                &&& spec_version_info_encodable(info)
                &&& info.version@ == version@
                &&& info.download_path@ == download_path@
                &&& info.checksum@ == checksum@
                &&& info.yanked == yanked
                &&& info.created_at == now
                &&& info.expires_at == now + old(self).default_ttl
                &&& tree_entries(final(self).versions_tree) == tree_entries(
                    old(self).versions_tree,
                ).insert(
                    spec_version_key(crate_name@, version@),
                    spec_enc_version_info(info),
                )
            }),
            r is Err ==> r matches Err(VersionManagerError::DatabaseError(_)),
    {
        let expires_at = now + self.default_ttl;
        let info = VersionInfo {
            version: version.to_owned(),
            download_path: download_path.to_owned(),
            checksum: checksum.to_owned(),
            yanked,
            created_at: now,
            expires_at,
        };
        let out = VersionInfo {
            version: info.version.clone(),
            download_path: info.download_path.clone(),
            checksum: info.checksum.clone(),
            yanked: info.yanked,
            created_at: info.created_at,
            expires_at: info.expires_at,
        };
        assert(out == info);
        match self.set_version_info(crate_name, version, info) {
            Ok(()) => Ok(out),
            Err(e) => Err(e),
        }
    }

    /// Every version record of one package still within its TTL, in the
    /// durable table's order; a record past its TTL is deleted on the way
    /// (lazy expiry), and a stored blob that does not parse is skipped and
    /// left alone.
    pub fn get_all_versions(&mut self, crate_name: &str, now: u64) -> (r: Result<
        Vec<VersionInfo>,
        VersionManagerError,
    >)
        requires
            old(self).wf(),
        ensures
            final(self).wf(),
            final(self).default_ttl == old(self).default_ttl,
            tree_entries(final(self).latest_tree) == tree_entries(old(self).latest_tree),
            final(self).memory_cache@ == old(self).memory_cache@,
            r matches Ok(list) ==> spec_scan_result(
                list@,
                spec_version_prefix(crate_name@),
                tree_entries(old(self).versions_tree),
                tree_entries(final(self).versions_tree),
                now,
            ),
            spec_scan_sweep_bounded(
                spec_version_prefix(crate_name@),
                tree_entries(old(self).versions_tree),
                tree_entries(final(self).versions_tree),
                now,
            ),
    {
        let prefix = version_prefix(crate_name);
        let ghost vt0 = tree_entries(self.versions_tree);
        let pairs = match tree_scan_prefix(&self.versions_tree, &prefix) {
            Ok(p) => p,
            Err(e) => {
                proof {
                    lemma_scan_bounded_refl(spec_version_prefix(crate_name@), vt0, now);
                }
                return Err(VersionManagerError::DatabaseError(e));
            },
        };
        let n = pairs.len();
        let mut out: Vec<VersionInfo> = Vec::new();
        let mut i: usize = 0;
        proof {
            lemma_gav_init(pairs@, now, vt0);
            assert(out@ =~= Seq::<VersionInfo>::empty());
        }
        while i < n
            invariant
                self.wf(),
                self.memory_cache == old(self).memory_cache,
                self.latest_tree == old(self).latest_tree,
                self.default_ttl == old(self).default_ttl,
                n == pairs@.len(),
                i <= n,
                vt0 == tree_entries(old(self).versions_tree),
                prefix@ == spec_version_prefix(crate_name@),
                spec_lists_prefix_entries(vt0, prefix@, pairs@),
                gav_inv(out@, pairs@, i as int, now, tree_entries(self.versions_tree), vt0),
            decreases n - i,
        {
            let ghost cur = tree_entries(self.versions_tree);
            let ghost out0 = out@;
            let val = &pairs[i].1;
            match decode_version_info(val) {
                Some(info) => {
                    if now <= info.expires_at {
                        out.push(info);
                        proof {
                            lemma_gav_step_fresh(out0, info, pairs@, i as int, now, cur, vt0);
                            assert(out@ == out0.push(info));
                        }
                    } else {
                        let key = &pairs[i].0;
                        match tree_remove(&mut self.versions_tree, key) {
                            Ok(()) => {},
                            Err(e) => {
                                proof {
                                    lemma_version_witness(pairs@[i as int].1@, info, now);
                                    lemma_scan_bounded_of_inv(
                                        out0,
                                        pairs@,
                                        i as int,
                                        now,
                                        cur,
                                        vt0,
                                        prefix@,
                                    );
                                    assert(vt0.contains_pair(
                                        pairs@[i as int].0@,
                                        pairs@[i as int].1@,
                                    ));
                                    lemma_scan_bounded_remove(
                                        prefix@,
                                        vt0,
                                        cur,
                                        tree_entries(self.versions_tree),
                                        pairs@[i as int].0@,
                                        now,
                                    );
                                }
                                return Err(VersionManagerError::DatabaseError(e));
                            },
                        }
                        proof {
                            lemma_gav_step_stale(
                                out0,
                                info,
                                pairs@,
                                i as int,
                                now,
                                cur,
                                tree_entries(self.versions_tree),
                                vt0,
                            );
                        }
                    }
                },
                None => {
                    proof {
                        lemma_gav_step_skip(out0, pairs@, i as int, now, cur, vt0);
                    }
                },
            }
            i += 1;
        }
        proof {
            lemma_gav_finish(
                out@,
                pairs@,
                now,
                tree_entries(self.versions_tree),
                vt0,
                prefix@,
            );
            lemma_scan_result_implies_bounded(
                out@,
                prefix@,
                vt0,
                tree_entries(self.versions_tree),
                now,
            );
        }
        Ok(out)
    }

    /// Removes every record past its TTL from both durable tables, and
    /// evicts the in-process entries whose package had a stale pointer
    /// removed. Stored blobs that do not parse are left alone. Returns how
    /// many entries were removed.
    pub fn cleanup_expired_data(&mut self, now: u64) -> (r: Result<usize, VersionManagerError>)
        requires
            old(self).wf(),
        ensures
            final(self).wf(),
            final(self).default_ttl == old(self).default_ttl,
            final(self).memory_cache@.submap_of(old(self).memory_cache@),
            r is Ok ==> spec_versions_swept(
                tree_entries(old(self).versions_tree),
                tree_entries(final(self).versions_tree),
                now,
            ) && spec_mappings_swept(
                tree_entries(old(self).latest_tree),
                tree_entries(final(self).latest_tree),
                now,
            ),
            r is Ok ==> spec_stale_names_evicted(
                final(self).memory_cache@,
                tree_entries(old(self).latest_tree),
                now,
            ),
            spec_versions_sweep_bounded(
                tree_entries(old(self).versions_tree),
                tree_entries(final(self).versions_tree),
                now,
            ),
            spec_mappings_sweep_bounded(
                tree_entries(old(self).latest_tree),
                tree_entries(final(self).latest_tree),
                now,
            ),
            r matches Ok(c) ==> exists|pv: Seq<(Vec<u8>, Vec<u8>)>, pl: Seq<(Vec<u8>, Vec<u8>)>|
                {
                    &&& spec_lists_entries(tree_entries(old(self).versions_tree), pv)
                    &&& spec_lists_entries(tree_entries(old(self).latest_tree), pl)
                    &&& c as nat == spec_sat_add_usize(
                        spec_count_stale_versions(pv, now),
                        spec_count_stale_mappings(pl, now),
                    )
                },
    {
        let mut cleaned_v: usize = 0;
        let mut cleaned_m: usize = 0;
        let ghost vt0 = tree_entries(self.versions_tree);
        let pairs = match tree_iter_all(&self.versions_tree) {
            Ok(p) => p,
            Err(e) => {
                proof {
                    lemma_v_bounded_refl(vt0, now);
                    lemma_m_bounded_refl(tree_entries(self.latest_tree), now);
                }
                return Err(VersionManagerError::DatabaseError(e));
            },
        };
        let n = pairs.len();
        let mut i: usize = 0;
        proof {
            lemma_sweep_v_init(pairs@, now, vt0);
            assert(pairs@.skip(0) =~= pairs@);
        }
        while i < n
            invariant
                self.wf(),
                cleaned_v <= i,
                self.memory_cache == old(self).memory_cache,
                self.latest_tree == old(self).latest_tree,
                self.default_ttl == old(self).default_ttl,
                n == pairs@.len(),
                i <= n,
                vt0 == tree_entries(old(self).versions_tree),
                spec_lists_entries(vt0, pairs@),
                sweep_v_inv(pairs@, i as int, now, tree_entries(self.versions_tree), vt0),
                cleaned_v + spec_count_stale_versions(pairs@.skip(i as int), now)
                    == spec_count_stale_versions(pairs@, now),
            decreases n - i,
        {
            let ghost cur = tree_entries(self.versions_tree);
            proof {
                lemma_count_stale_versions_step(pairs@, now, i as int);
            }
            let val = &pairs[i].1;
            match decode_version_info(val) {
                Some(info) => {
                    if now > info.expires_at {
                        proof {
                            lemma_version_witness(pairs@[i as int].1@, info, now);
                        }
                        let key = &pairs[i].0;
                        match tree_remove(&mut self.versions_tree, key) {
                            Ok(()) => {},
                            Err(e) => {
                                proof {
                                    lemma_v_bounded_of_inv(pairs@, i as int, now, cur, vt0);
                                    assert(vt0.contains_pair(
                                        pairs@[i as int].0@,
                                        pairs@[i as int].1@,
                                    ));
                                    lemma_v_bounded_remove(
                                        vt0,
                                        cur,
                                        tree_entries(self.versions_tree),
                                        pairs@[i as int].0@,
                                        now,
                                    );
                                    lemma_m_bounded_refl(tree_entries(self.latest_tree), now);
                                }
                                return Err(VersionManagerError::DatabaseError(e));
                            },
                        }
                        cleaned_v += 1;
                        proof {
                            lemma_sweep_v_step_stale(
                                info,
                                pairs@,
                                i as int,
                                now,
                                cur,
                                tree_entries(self.versions_tree),
                                vt0,
                            );
                        }
                    } else {
                        proof {
                            lemma_version_witness(pairs@[i as int].1@, info, now);
                            lemma_sweep_v_step_keep(pairs@, i as int, now, cur, vt0);
                        }
                    }
                },
                None => {
                    proof {
                        lemma_version_undecodable(pairs@[i as int].1@, now);
                        lemma_sweep_v_step_keep(pairs@, i as int, now, cur, vt0);
                    }
                },
            }
            i += 1;
        }
        proof {
            lemma_sweep_v_finish(pairs@, now, tree_entries(self.versions_tree), vt0);
            assert(pairs@.skip(n as int) =~= Seq::<(Vec<u8>, Vec<u8>)>::empty());
        }
        let ghost vt1v = tree_entries(self.versions_tree);
        let ghost lt0 = tree_entries(self.latest_tree);
        let lpairs = match tree_iter_all(&self.latest_tree) {
            Ok(p) => p,
            Err(e) => {
                proof {
                    lemma_v_swept_implies_bounded(vt0, vt1v, now);
                    lemma_m_bounded_refl(lt0, now);
                }
                return Err(VersionManagerError::DatabaseError(e));
            },
        };
        let ln = lpairs.len();
        let mut li: usize = 0;
        proof {
            lemma_sweep_m_init(lpairs@, now, lt0);
            lemma_evict_init(lpairs@, now, self.memory_cache@);
            assert(lpairs@.skip(0) =~= lpairs@);
        }
        while li < ln
            invariant
                self.wf(),
                cleaned_v <= n,
                cleaned_v == spec_count_stale_versions(pairs@, now),
                cleaned_m <= li,
                self.default_ttl == old(self).default_ttl,
                n == pairs@.len(),
                ln == lpairs@.len(),
                li <= ln,
                vt0 == tree_entries(old(self).versions_tree),
                lt0 == tree_entries(old(self).latest_tree),
                spec_lists_entries(vt0, pairs@),
                spec_lists_entries(lt0, lpairs@),
                tree_entries(self.versions_tree) == vt1v,
                spec_versions_swept(vt0, vt1v, now),
                self.memory_cache@.submap_of(old(self).memory_cache@),
                sweep_m_inv(lpairs@, li as int, now, tree_entries(self.latest_tree), lt0),
                evict_inv(lpairs@, li as int, now, self.memory_cache@),
                cleaned_m + spec_count_stale_mappings(lpairs@.skip(li as int), now)
                    == spec_count_stale_mappings(lpairs@, now),
            decreases ln - li,
        {
            let ghost cur = tree_entries(self.latest_tree);
            let ghost cache0 = self.memory_cache@;
            proof {
                lemma_count_stale_mappings_step(lpairs@, now, li as int);
            }
            let val = &lpairs[li].1;
            match decode_mapping(val) {
                Some(mapping) => {
                    if now > mapping.expires_at {
                        proof {
                            lemma_mapping_witness(lpairs@[li as int].1@, mapping, now);
                        }
                        let key = &lpairs[li].0;
                        match tree_remove(&mut self.latest_tree, key) {
                            Ok(()) => {},
                            Err(e) => {
                                proof {
                                    lemma_v_swept_implies_bounded(vt0, vt1v, now);
                                    lemma_m_bounded_of_inv(lpairs@, li as int, now, cur, lt0);
                                    assert(lt0.contains_pair(
                                        lpairs@[li as int].0@,
                                        lpairs@[li as int].1@,
                                    ));
                                    lemma_m_bounded_remove(
                                        lt0,
                                        cur,
                                        tree_entries(self.latest_tree),
                                        lpairs@[li as int].0@,
                                        now,
                                    );
                                }
                                return Err(VersionManagerError::DatabaseError(e));
                            },
                        }
                        self.memory_cache.remove(mapping.crate_name.as_str());
                        cleaned_m += 1;
                        proof {
                            assert(self.memory_cache@ == cache0.remove(mapping.crate_name@));
                            assert(self.memory_cache@.submap_of(cache0));
                            vstd::map_lib::lemma_submap_of_trans(
                                self.memory_cache@,
                                cache0,
                                old(self).memory_cache@,
                            );
                            lemma_evict_step_stale(
                                lpairs@,
                                li as int,
                                now,
                                cache0,
                                mapping.crate_name@,
                            );
                            lemma_sweep_m_step_stale(
                                mapping,
                                lpairs@,
                                li as int,
                                now,
                                cur,
                                tree_entries(self.latest_tree),
                                lt0,
                            );
                        }
                    } else {
                        proof {
                            lemma_mapping_witness(lpairs@[li as int].1@, mapping, now);
                            lemma_sweep_m_step_keep(lpairs@, li as int, now, cur, lt0);
                            lemma_evict_step_keep(lpairs@, li as int, now, self.memory_cache@);
                        }
                    }
                },
                None => {
                    proof {
                        lemma_mapping_undecodable(lpairs@[li as int].1@, now);
                        lemma_sweep_m_step_keep(lpairs@, li as int, now, cur, lt0);
                        lemma_evict_step_keep(lpairs@, li as int, now, self.memory_cache@);
                    }
                },
            }
            li += 1;
        }
        proof {
            lemma_sweep_m_finish(lpairs@, now, tree_entries(self.latest_tree), lt0);
            lemma_evict_finish(lpairs@, now, self.memory_cache@, lt0);
            lemma_v_swept_implies_bounded(vt0, vt1v, now);
            lemma_m_swept_implies_bounded(lt0, tree_entries(self.latest_tree), now);
            assert(lpairs@.skip(ln as int) =~= Seq::<(Vec<u8>, Vec<u8>)>::empty());
        }
        let cleaned: usize = if cleaned_v > usize::MAX - cleaned_m {
            usize::MAX
        } else {
            cleaned_v + cleaned_m
        };
        proof {
            assert(cleaned as nat == spec_sat_add_usize(
                spec_count_stale_versions(pairs@, now),
                spec_count_stale_mappings(lpairs@, now),
            ));
        }
        Ok(cleaned)
    }

    /// Counts over both tables and the in-process map: how many stored
    /// blobs are well-formed pointers or records, and how many of those are
    /// past their TTL at `now`.
    pub fn get_stats(&self, now: u64) -> (r: Result<VersionManagerStats, VersionManagerError>)
        requires
            self.wf(),
        ensures
            r matches Ok(st) ==> ({
                &&& st.memory_cache_size == self.memory_cache.spec_len()
                &&& exists|pl: Seq<(Vec<u8>, Vec<u8>)>, pv: Seq<(Vec<u8>, Vec<u8>)>|
                    {
                        &&& spec_lists_entries(tree_entries(self.latest_tree), pl)
                        &&& spec_lists_entries(tree_entries(self.versions_tree), pv)
                        &&& st.latest_mappings_count == spec_count_mappings(pl)
                        &&& st.versions_count == spec_count_versions(pv)
                        &&& st.expired_count == spec_sat_add_usize(
                            spec_count_stale_mappings(pl, now),
                            spec_count_stale_versions(pv, now),
                        )
                    }
            }),
    {
        let lpairs = match tree_iter_all(&self.latest_tree) {
            Ok(p) => p,
            Err(e) => {
                return Err(VersionManagerError::DatabaseError(e));
            },
        };
        let vpairs = match tree_iter_all(&self.versions_tree) {
            Ok(p) => p,
            Err(e) => {
                return Err(VersionManagerError::DatabaseError(e));
            },
        };
        let mut latest_count: usize = 0;
        let mut expired_l: usize = 0;
        let mut expired_v: usize = 0;
        let ln = lpairs.len();
        let mut i: usize = 0;
        proof {
            assert(lpairs@.skip(0) =~= lpairs@);
        }
        while i < ln
            invariant
                ln == lpairs@.len(),
                i <= ln,
                latest_count <= i,
                expired_l <= i,
                latest_count + spec_count_mappings(lpairs@.skip(i as int)) == spec_count_mappings(
                    lpairs@,
                ),
                expired_l + spec_count_stale_mappings(lpairs@.skip(i as int), now)
                    == spec_count_stale_mappings(lpairs@, now),
            decreases ln - i,
        {
            proof {
                lemma_count_mappings_step(lpairs@, i as int);
                lemma_count_stale_mappings_step(lpairs@, now, i as int);
            }
            let ghost bv = lpairs@[i as int].1@;
            match decode_mapping(&lpairs[i].1) {
                Some(m) => {
                    proof {
                        lemma_mapping_witness(bv, m, now);
                    }
                    latest_count += 1;
                    if now > m.expires_at {
                        expired_l += 1;
                    }
                },
                None => {
                    proof {
                        lemma_mapping_undecodable(bv, now);
                    }
                },
            }
            i += 1;
        }
        proof {
            assert(lpairs@.skip(ln as int) =~= Seq::<(Vec<u8>, Vec<u8>)>::empty());
        }
        let mut version_count: usize = 0;
        let vn = vpairs.len();
        let mut j: usize = 0;
        proof {
            assert(vpairs@.skip(0) =~= vpairs@);
        }
        while j < vn
            invariant
                vn == vpairs@.len(),
                j <= vn,
                version_count <= j,
                expired_v <= j,
                version_count + spec_count_versions(vpairs@.skip(j as int)) == spec_count_versions(
                    vpairs@,
                ),
                expired_v + spec_count_stale_versions(vpairs@.skip(j as int), now)
                    == spec_count_stale_versions(vpairs@, now),
            decreases vn - j,
        {
            proof {
                lemma_count_versions_step(vpairs@, j as int);
                lemma_count_stale_versions_step(vpairs@, now, j as int);
            }
            let ghost bv = vpairs@[j as int].1@;
            match decode_version_info(&vpairs[j].1) {
                Some(v) => {
                    proof {
                        lemma_version_witness(bv, v, now);
                    }
                    version_count += 1;
                    if now > v.expires_at {
                        expired_v += 1;
                    }
                },
                None => {
                    proof {
                        lemma_version_undecodable(bv, now);
                    }
                },
            }
            j += 1;
        }
        proof {
            assert(vpairs@.skip(vn as int) =~= Seq::<(Vec<u8>, Vec<u8>)>::empty());
        }
        let memory_cache_size = self.memory_cache.len();
        let expired_count: usize = if expired_l > usize::MAX - expired_v {
            usize::MAX
        } else {
            expired_l + expired_v
        };
        proof {
            assert(spec_lists_entries(tree_entries(self.latest_tree), lpairs@));
            assert(spec_lists_entries(tree_entries(self.versions_tree), vpairs@));
            assert(latest_count == spec_count_mappings(lpairs@));
            assert(version_count == spec_count_versions(vpairs@));
            assert(expired_l == spec_count_stale_mappings(lpairs@, now));
            assert(expired_v == spec_count_stale_versions(vpairs@, now));
            assert(expired_count as nat == spec_sat_add_usize(
                spec_count_stale_mappings(lpairs@, now),
                spec_count_stale_versions(vpairs@, now),
            ));
        }
        Ok(
            VersionManagerStats {
                latest_mappings_count: latest_count,
                versions_count: version_count,
                expired_count,
                memory_cache_size,
            },
        )
    }

    /// Forces buffered writes of the durable store to disk. Relies on the
    /// engine for everything it means.
    pub fn flush(&self) -> (r: Result<(), VersionManagerError>)
        ensures
            r is Err ==> r matches Err(VersionManagerError::DatabaseError(_)),
    {
        match db_flush(&self.db) {
            Ok(()) => Ok(()),
            Err(e) => Err(VersionManagerError::DatabaseError(e)),
        }
    }
}

} // verus!
