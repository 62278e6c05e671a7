//! The two records the version index persists, and the byte format they are
//! stored in: fixed-width integer fields first, then length-prefixed UTF-8
//! string payloads. Decoding accepts exactly the encodings.

use vstd::prelude::*;
use vstd::bytes::{
    lemma_auto_spec_u64_to_from_le_bytes, spec_u64_from_le_bytes, spec_u64_to_le_bytes,
    u64_from_le_bytes, u64_to_le_bytes,
};
use vstd::slice::{slice_subrange, slice_to_vec};
use vstd::string::StrSliceExecFns;
use vstd::utf8::{encode_utf8, encode_utf8_decode_utf8, encode_utf8_valid_utf8, valid_utf8};
use crate::strutil::string_from_utf8;

verus! {

/// Metadata for one (package, version) pair, as stored in the versions table.
#[derive(Debug, Clone)]
pub struct VersionInfo {
    pub version: String,
    pub download_path: String,
    pub checksum: String,
    pub yanked: bool,
    pub created_at: u64,
    pub expires_at: u64,
}

/// The per-package pointer to the version that currently counts as latest.
#[derive(Debug, Clone)]
pub struct LatestVersionMapping {
    pub crate_name: String,
    pub latest_version: String,
    pub updated_at: u64,
    pub expires_at: u64,
}

pub open spec fn spec_bool_byte(b: bool) -> u8 {
    if b {
        1u8
    } else {
        0u8
    }
}

/// A string payload whose length fits the length field.
pub open spec fn spec_str_encodable(s: Seq<char>) -> bool {
    encode_utf8(s).len() <= u64::MAX
}

pub open spec fn spec_version_info_encodable(v: VersionInfo) -> bool {
    spec_str_encodable(v.version@) && spec_str_encodable(v.download_path@) && spec_str_encodable(
        v.checksum@,
    )
}

pub open spec fn spec_mapping_encodable(m: LatestVersionMapping) -> bool {
    spec_str_encodable(m.crate_name@) && spec_str_encodable(m.latest_version@)
}

/// The stored bytes of a version record.
pub open spec fn spec_enc_version_info(v: VersionInfo) -> Seq<u8> {
    spec_u64_to_le_bytes(v.created_at) + spec_u64_to_le_bytes(v.expires_at) + seq![
        spec_bool_byte(v.yanked),
    ] + spec_u64_to_le_bytes(encode_utf8(v.version@).len() as u64) + spec_u64_to_le_bytes(
        encode_utf8(v.download_path@).len() as u64,
    ) + spec_u64_to_le_bytes(encode_utf8(v.checksum@).len() as u64) + encode_utf8(v.version@)
        + encode_utf8(v.download_path@) + encode_utf8(v.checksum@)
}

/// The stored bytes of a latest-version pointer.
pub open spec fn spec_enc_mapping(m: LatestVersionMapping) -> Seq<u8> {
    spec_u64_to_le_bytes(m.updated_at) + spec_u64_to_le_bytes(m.expires_at) + spec_u64_to_le_bytes(
        encode_utf8(m.crate_name@).len() as u64,
    ) + spec_u64_to_le_bytes(encode_utf8(m.latest_version@).len() as u64) + encode_utf8(
        m.crate_name@,
    ) + encode_utf8(m.latest_version@)
}

/// Where each piece of an encoded version record stands.
proof fn lemma_enc_version_info_parts(v: VersionInfo)
    requires
        spec_version_info_encodable(v),
    ensures
        ({
            let b = spec_enc_version_info(v);
            let u1 = encode_utf8(v.version@);
            let u2 = encode_utf8(v.download_path@);
            let u3 = encode_utf8(v.checksum@);
            &&& b.len() == 41 + u1.len() + u2.len() + u3.len()
            &&& b.subrange(0, 8) == spec_u64_to_le_bytes(v.created_at)
            &&& b.subrange(8, 16) == spec_u64_to_le_bytes(v.expires_at)
            &&& b[16] == spec_bool_byte(v.yanked)
            &&& b.subrange(17, 25) == spec_u64_to_le_bytes(u1.len() as u64)
            &&& b.subrange(25, 33) == spec_u64_to_le_bytes(u2.len() as u64)
            &&& b.subrange(33, 41) == spec_u64_to_le_bytes(u3.len() as u64)
            &&& b.subrange(41, 41 + u1.len() as int) == u1
            &&& b.subrange(41 + u1.len() as int, 41 + u1.len() as int + u2.len() as int) == u2
            &&& b.subrange(41 + u1.len() as int + u2.len() as int, b.len() as int) == u3
        }),
{
    lemma_auto_spec_u64_to_from_le_bytes();
    let b = spec_enc_version_info(v);
    let u1 = encode_utf8(v.version@);
    let u2 = encode_utf8(v.download_path@);
    let u3 = encode_utf8(v.checksum@);
    assert(b.subrange(0, 8) =~= spec_u64_to_le_bytes(v.created_at));
    assert(b.subrange(8, 16) =~= spec_u64_to_le_bytes(v.expires_at));
    assert(b.subrange(17, 25) =~= spec_u64_to_le_bytes(u1.len() as u64));
    assert(b.subrange(25, 33) =~= spec_u64_to_le_bytes(u2.len() as u64));
    assert(b.subrange(33, 41) =~= spec_u64_to_le_bytes(u3.len() as u64));
    assert(b.subrange(41, 41 + u1.len() as int) =~= u1);
    assert(b.subrange(41 + u1.len() as int, 41 + u1.len() as int + u2.len() as int) =~= u2);
    assert(b.subrange(41 + u1.len() as int + u2.len() as int, b.len() as int) =~= u3);
}

/// Where each piece of an encoded latest-version pointer stands.
proof fn lemma_enc_mapping_parts(m: LatestVersionMapping)
    requires
        spec_mapping_encodable(m),
    ensures
        ({
            let b = spec_enc_mapping(m);
            let u1 = encode_utf8(m.crate_name@);
            let u2 = encode_utf8(m.latest_version@);
            &&& b.len() == 32 + u1.len() + u2.len()
            &&& b.subrange(0, 8) == spec_u64_to_le_bytes(m.updated_at)
            &&& b.subrange(8, 16) == spec_u64_to_le_bytes(m.expires_at)
            &&& b.subrange(16, 24) == spec_u64_to_le_bytes(u1.len() as u64)
            &&& b.subrange(24, 32) == spec_u64_to_le_bytes(u2.len() as u64)
            &&& b.subrange(32, 32 + u1.len() as int) == u1
            &&& b.subrange(32 + u1.len() as int, b.len() as int) == u2
        }),
{
    lemma_auto_spec_u64_to_from_le_bytes();
    let b = spec_enc_mapping(m);
    let u1 = encode_utf8(m.crate_name@);
    let u2 = encode_utf8(m.latest_version@);
    assert(b.subrange(0, 8) =~= spec_u64_to_le_bytes(m.updated_at));
    assert(b.subrange(8, 16) =~= spec_u64_to_le_bytes(m.expires_at));
    assert(b.subrange(16, 24) =~= spec_u64_to_le_bytes(u1.len() as u64));
    assert(b.subrange(24, 32) =~= spec_u64_to_le_bytes(u2.len() as u64));
    assert(b.subrange(32, 32 + u1.len() as int) =~= u1);
    assert(b.subrange(32 + u1.len() as int, b.len() as int) =~= u2);
}

/// Two version records with the same stored bytes carry the same data.
pub proof fn lemma_enc_version_info_injective(a: VersionInfo, b: VersionInfo)
    requires
        spec_version_info_encodable(a),
        spec_version_info_encodable(b),
        spec_enc_version_info(a) == spec_enc_version_info(b),
    ensures
        a.version@ == b.version@,
        a.download_path@ == b.download_path@,
        a.checksum@ == b.checksum@,
        a.yanked == b.yanked,
        a.created_at == b.created_at,
        a.expires_at == b.expires_at,
{
    lemma_auto_spec_u64_to_from_le_bytes();
    lemma_enc_version_info_parts(a);
    lemma_enc_version_info_parts(b);
    let ea = spec_enc_version_info(a);
    let a1 = encode_utf8(a.version@);
    let a2 = encode_utf8(a.download_path@);
    let a3 = encode_utf8(a.checksum@);
    let b1 = encode_utf8(b.version@);
    let b2 = encode_utf8(b.download_path@);
    let b3 = encode_utf8(b.checksum@);
    assert(spec_u64_from_le_bytes(ea.subrange(0, 8)) == a.created_at);
    assert(spec_u64_from_le_bytes(ea.subrange(0, 8)) == b.created_at);
    assert(spec_u64_from_le_bytes(ea.subrange(8, 16)) == a.expires_at);
    assert(spec_u64_from_le_bytes(ea.subrange(8, 16)) == b.expires_at);
    assert(spec_bool_byte(a.yanked) == spec_bool_byte(b.yanked));
    assert(a1.len() as u64 == spec_u64_from_le_bytes(ea.subrange(17, 25)));
    assert(b1.len() as u64 == spec_u64_from_le_bytes(ea.subrange(17, 25)));
    assert(a1.len() == b1.len());
    assert(a2.len() as u64 == spec_u64_from_le_bytes(ea.subrange(25, 33)));
    assert(b2.len() as u64 == spec_u64_from_le_bytes(ea.subrange(25, 33)));
    assert(a2.len() == b2.len());
    assert(a1 == ea.subrange(41, 41 + a1.len() as int));
    assert(b1 == ea.subrange(41, 41 + a1.len() as int));
    assert(a2 == ea.subrange(41 + a1.len() as int, 41 + a1.len() as int + a2.len() as int));
    assert(b2 == ea.subrange(41 + a1.len() as int, 41 + a1.len() as int + a2.len() as int));
    assert(a3 == ea.subrange(41 + a1.len() as int + a2.len() as int, ea.len() as int));
    assert(b3 == ea.subrange(41 + a1.len() as int + a2.len() as int, ea.len() as int));
    encode_utf8_decode_utf8(a.version@);
    encode_utf8_decode_utf8(b.version@);
    encode_utf8_decode_utf8(a.download_path@);
    encode_utf8_decode_utf8(b.download_path@);
    encode_utf8_decode_utf8(a.checksum@);
    encode_utf8_decode_utf8(b.checksum@);
}

/// Two latest-version pointers with the same stored bytes carry the same data.
pub proof fn lemma_enc_mapping_injective(a: LatestVersionMapping, b: LatestVersionMapping)
    requires
        spec_mapping_encodable(a),
        spec_mapping_encodable(b),
        spec_enc_mapping(a) == spec_enc_mapping(b),
    ensures
        a.crate_name@ == b.crate_name@,
        a.latest_version@ == b.latest_version@,
        a.updated_at == b.updated_at,
        a.expires_at == b.expires_at,
{
    lemma_auto_spec_u64_to_from_le_bytes();
    lemma_enc_mapping_parts(a);
    lemma_enc_mapping_parts(b);
    let ea = spec_enc_mapping(a);
    let a1 = encode_utf8(a.crate_name@);
    let b1 = encode_utf8(b.crate_name@);
    assert(a1.len() as u64 == spec_u64_from_le_bytes(ea.subrange(16, 24)));
    assert(b1.len() as u64 == spec_u64_from_le_bytes(ea.subrange(16, 24)));
    assert(a1.len() == b1.len());
    assert(a1 == ea.subrange(32, 32 + a1.len() as int));
    assert(b1 == ea.subrange(32, 32 + a1.len() as int));
    assert(encode_utf8(a.latest_version@) == ea.subrange(32 + a1.len() as int, ea.len() as int));
    assert(encode_utf8(b.latest_version@) == ea.subrange(32 + a1.len() as int, ea.len() as int));
    encode_utf8_decode_utf8(a.crate_name@);
    encode_utf8_decode_utf8(b.crate_name@);
    encode_utf8_decode_utf8(a.latest_version@);
    encode_utf8_decode_utf8(b.latest_version@);
}

/// Writes a version record in the stored format.
pub fn encode_version_info(v: &VersionInfo) -> (r: Vec<u8>)
    ensures
        r@ == spec_enc_version_info(*v),
        spec_version_info_encodable(*v),
{
    let mut out = u64_to_le_bytes(v.created_at);
    let mut t = u64_to_le_bytes(v.expires_at);
    out.append(&mut t);
    out.push(if v.yanked { 1 } else { 0 });
    let mut p1 = v.version.as_str().as_bytes_vec();
    let mut p2 = v.download_path.as_str().as_bytes_vec();
    let mut p3 = v.checksum.as_str().as_bytes_vec();
    let mut t = u64_to_le_bytes(p1.len() as u64);
    out.append(&mut t);
    let mut t = u64_to_le_bytes(p2.len() as u64);
    out.append(&mut t);
    let mut t = u64_to_le_bytes(p3.len() as u64);
    out.append(&mut t);
    out.append(&mut p1);
    out.append(&mut p2);
    out.append(&mut p3);
    assert(out@ =~= spec_enc_version_info(*v));
    out
}

/// Writes a latest-version pointer in the stored format.
pub fn encode_mapping(m: &LatestVersionMapping) -> (r: Vec<u8>)
    ensures
        r@ == spec_enc_mapping(*m),
        spec_mapping_encodable(*m),
{
    let mut out = u64_to_le_bytes(m.updated_at);
    let mut t = u64_to_le_bytes(m.expires_at);
    out.append(&mut t);
    let mut p1 = m.crate_name.as_str().as_bytes_vec();
    let mut p2 = m.latest_version.as_str().as_bytes_vec();
    let mut t = u64_to_le_bytes(p1.len() as u64);
    out.append(&mut t);
    let mut t = u64_to_le_bytes(p2.len() as u64);
    out.append(&mut t);
    out.append(&mut p1);
    out.append(&mut p2);
    assert(out@ =~= spec_enc_mapping(*m));
    out
}

/// The integer stored at `off`.
fn read_u64_at(bytes: &Vec<u8>, off: usize) -> (r: u64)
    requires
        off + 8 <= bytes@.len(),
    ensures
        r == spec_u64_from_le_bytes(bytes@.subrange(off as int, off as int + 8)),
{
    let total = bytes.len();
    assert(off + 8 <= total);
    let s = slice_subrange(bytes.as_slice(), off, off + 8);
    u64_from_le_bytes(s)
}

/// The payload bytes in `[off, off + len)`.
fn read_payload(bytes: &Vec<u8>, off: usize, len: usize) -> (r: Vec<u8>)
    requires
        off + len <= bytes@.len(),
    ensures
        r@ == bytes@.subrange(off as int, off as int + len as int),
{
    let total = bytes.len();
    assert(off + len <= total);
    let s = slice_subrange(bytes.as_slice(), off, off + len);
    slice_to_vec(s)
}

/// Reads a stored version record back; accepts exactly the encodings.
pub fn decode_version_info(bytes: &Vec<u8>) -> (r: Option<VersionInfo>)
    ensures
        r matches Some(v) ==> bytes@ == spec_enc_version_info(v) && spec_version_info_encodable(v),
        forall|v: VersionInfo|
            spec_version_info_encodable(v) && bytes@ == spec_enc_version_info(v) ==> r is Some,
{
    proof {
        lemma_auto_spec_u64_to_from_le_bytes();
    }
    let n = bytes.len();
    if n < 41 {
        proof {
            assert forall|v: VersionInfo|
                spec_version_info_encodable(v) implies bytes@ != spec_enc_version_info(v) by {
                lemma_enc_version_info_parts(v);
            }
        }
        return None;
    }
    let created_at = read_u64_at(bytes, 0);
    let expires_at = read_u64_at(bytes, 8);
    let yb = bytes[16];
    let l1 = read_u64_at(bytes, 17);
    let l2 = read_u64_at(bytes, 25);
    let l3 = read_u64_at(bytes, 33);
    let rem0: u64 = (n - 41) as u64;
    let bad_shape = yb > 1 || l1 > rem0 || l2 > rem0 - l1 || l3 != rem0 - l1 - l2;
    if bad_shape {
        proof {
            assert forall|v: VersionInfo|
                spec_version_info_encodable(v) && bytes@ == spec_enc_version_info(
                    v,
                ) implies false by {
                lemma_enc_version_info_parts(v);
                let u1 = encode_utf8(v.version@);
                let u2 = encode_utf8(v.download_path@);
                let u3 = encode_utf8(v.checksum@);
                assert(yb == spec_bool_byte(v.yanked));
                assert(l1 == u1.len() as u64);
                assert(l2 == u2.len() as u64);
                assert(l3 == u3.len() as u64);
                assert(n == 41 + u1.len() + u2.len() + u3.len());
            }
        }
        return None;
    }
    let l1s: usize = l1 as usize;
    let l2s: usize = l2 as usize;
    let l3s: usize = l3 as usize;
    let p1 = read_payload(bytes, 41, l1s);
    let p2 = read_payload(bytes, 41 + l1s, l2s);
    let p3 = read_payload(bytes, 41 + l1s + l2s, l3s);
    let s1 = string_from_utf8(p1);
    let s2 = string_from_utf8(p2);
    let s3 = string_from_utf8(p3);
    match (s1, s2, s3) {
        (Some(version), Some(download_path), Some(checksum)) => {
            let v = VersionInfo {
                version,
                download_path,
                checksum,
                yanked: yb == 1,
                created_at,
                expires_at,
            };
            proof {
                encode_utf8_valid_utf8(v.version@);
                encode_utf8_valid_utf8(v.download_path@);
                encode_utf8_valid_utf8(v.checksum@);
                assert(bytes@ == spec_enc_version_info(v)) by {
                    lemma_enc_version_info_parts(v);
                    let e = spec_enc_version_info(v);
                    assert(e.len() == bytes@.len());
                    assert forall|i: int| 0 <= i < bytes@.len() implies bytes@[i] == e[i] by {
                        if i < 8 {
                            assert(e.subrange(0, 8)[i] == e[i]);
                            assert(bytes@.subrange(0, 8)[i] == bytes@[i]);
                        } else if i < 16 {
                            assert(e.subrange(8, 16)[i - 8] == e[i]);
                            assert(bytes@.subrange(8, 16)[i - 8] == bytes@[i]);
                        } else if i == 16 {
                        } else if i < 25 {
                            assert(e.subrange(17, 25)[i - 17] == e[i]);
                            assert(bytes@.subrange(17, 25)[i - 17] == bytes@[i]);
                        } else if i < 33 {
                            assert(e.subrange(25, 33)[i - 25] == e[i]);
                            assert(bytes@.subrange(25, 33)[i - 25] == bytes@[i]);
                        } else if i < 41 {
                            assert(e.subrange(33, 41)[i - 33] == e[i]);
                            assert(bytes@.subrange(33, 41)[i - 33] == bytes@[i]);
                        } else if i < 41 + l1 {
                            assert(e.subrange(41, 41 + l1 as int)[i - 41] == e[i]);
                            assert(bytes@.subrange(41, 41 + l1 as int)[i - 41] == bytes@[i]);
                        } else if i < 41 + l1 + l2 {
                            assert(e.subrange(41 + l1 as int, 41 + l1 as int + l2 as int)[i - 41
                                - l1 as int] == e[i]);
                            assert(bytes@.subrange(41 + l1 as int, 41 + l1 as int + l2 as int)[i
                                - 41 - l1 as int] == bytes@[i]);
                        } else {
                            assert(e.subrange(
                                41 + l1 as int + l2 as int,
                                e.len() as int,
                            )[i - 41 - l1 as int - l2 as int] == e[i]);
                            assert(bytes@.subrange(
                                41 + l1 as int + l2 as int,
                                bytes@.len() as int,
                            )[i - 41 - l1 as int - l2 as int] == bytes@[i]);
                        }
                    }
                    assert(bytes@ =~= e);
                }
            }
            Some(v)
        },
        _ => {
            proof {
                assert forall|v: VersionInfo|
                    spec_version_info_encodable(v) && bytes@ == spec_enc_version_info(
                        v,
                    ) implies false by {
                    lemma_enc_version_info_parts(v);
                    let u1 = encode_utf8(v.version@);
                    let u2 = encode_utf8(v.download_path@);
                    let u3 = encode_utf8(v.checksum@);
                    encode_utf8_valid_utf8(v.version@);
                    encode_utf8_valid_utf8(v.download_path@);
                    encode_utf8_valid_utf8(v.checksum@);
                    assert(l1 == u1.len() as u64);
                    assert(l2 == u2.len() as u64);
                    assert(bytes@.subrange(41, 41 + l1 as int) == u1);
                    assert(bytes@.subrange(41 + l1 as int, 41 + l1 as int + l2 as int) == u2);
                    assert(bytes@.subrange(41 + l1 as int + l2 as int, bytes@.len() as int) == u3);
                }
            }
            None
        },
    }
}

/// Reads a stored latest-version pointer back; accepts exactly the encodings.
pub fn decode_mapping(bytes: &Vec<u8>) -> (r: Option<LatestVersionMapping>)
    ensures
        r matches Some(m) ==> bytes@ == spec_enc_mapping(m) && spec_mapping_encodable(m),
        forall|m: LatestVersionMapping|
            spec_mapping_encodable(m) && bytes@ == spec_enc_mapping(m) ==> r is Some,
{
    proof {
        lemma_auto_spec_u64_to_from_le_bytes();
    }
    let n = bytes.len();
    if n < 32 {
        proof {
            assert forall|m: LatestVersionMapping|
                spec_mapping_encodable(m) implies bytes@ != spec_enc_mapping(m) by {
                lemma_enc_mapping_parts(m);
            }
        }
        return None;
    }
    let updated_at = read_u64_at(bytes, 0);
    let expires_at = read_u64_at(bytes, 8);
    let l1 = read_u64_at(bytes, 16);
    let l2 = read_u64_at(bytes, 24);
    let rem0: u64 = (n - 32) as u64;
    if l1 > rem0 || l2 != rem0 - l1 {
        proof {
            assert forall|m: LatestVersionMapping|
                spec_mapping_encodable(m) && bytes@ == spec_enc_mapping(m) implies false by {
                lemma_enc_mapping_parts(m);
                let u1 = encode_utf8(m.crate_name@);
                let u2 = encode_utf8(m.latest_version@);
                assert(l1 == u1.len() as u64);
                assert(l2 == u2.len() as u64);
                assert(n == 32 + u1.len() + u2.len());
            }
        }
        return None;
    }
    let l1s: usize = l1 as usize;
    let l2s: usize = l2 as usize;
    let p1 = read_payload(bytes, 32, l1s);
    let p2 = read_payload(bytes, 32 + l1s, l2s);
    let s1 = string_from_utf8(p1);
    let s2 = string_from_utf8(p2);
    match (s1, s2) {
        (Some(crate_name), Some(latest_version)) => {
            let m = LatestVersionMapping { crate_name, latest_version, updated_at, expires_at };
            proof {
                encode_utf8_valid_utf8(m.crate_name@);
                encode_utf8_valid_utf8(m.latest_version@);
                assert(bytes@ == spec_enc_mapping(m)) by {
                    lemma_enc_mapping_parts(m);
                    let e = spec_enc_mapping(m);
                    assert(e.len() == bytes@.len());
                    assert forall|i: int| 0 <= i < bytes@.len() implies bytes@[i] == e[i] by {
                        if i < 8 {
                            assert(e.subrange(0, 8)[i] == e[i]);
                            assert(bytes@.subrange(0, 8)[i] == bytes@[i]);
                        } else if i < 16 {
                            assert(e.subrange(8, 16)[i - 8] == e[i]);
                            assert(bytes@.subrange(8, 16)[i - 8] == bytes@[i]);
                        } else if i < 24 {
                            assert(e.subrange(16, 24)[i - 16] == e[i]);
                            assert(bytes@.subrange(16, 24)[i - 16] == bytes@[i]);
                        } else if i < 32 {
                            assert(e.subrange(24, 32)[i - 24] == e[i]);
                            assert(bytes@.subrange(24, 32)[i - 24] == bytes@[i]);
                        } else if i < 32 + l1 {
                            assert(e.subrange(32, 32 + l1 as int)[i - 32] == e[i]);
                            assert(bytes@.subrange(32, 32 + l1 as int)[i - 32] == bytes@[i]);
                        } else {
                            assert(e.subrange(32 + l1 as int, e.len() as int)[i - 32 - l1 as int]
                                == e[i]);
                            assert(bytes@.subrange(
                                32 + l1 as int,
                                bytes@.len() as int,
                            )[i - 32 - l1 as int] == bytes@[i]);
                        }
                    }
                    assert(bytes@ =~= e);
                }
            }
            Some(m)
        },
        _ => {
            proof {
                assert forall|m: LatestVersionMapping|
                    spec_mapping_encodable(m) && bytes@ == spec_enc_mapping(m) implies false by {
                    lemma_enc_mapping_parts(m);
                    let u1 = encode_utf8(m.crate_name@);
                    let u2 = encode_utf8(m.latest_version@);
                    encode_utf8_valid_utf8(m.crate_name@);
                    encode_utf8_valid_utf8(m.latest_version@);
                    assert(l1 == u1.len() as u64);
                    assert(bytes@.subrange(32, 32 + l1 as int) == u1);
                    assert(bytes@.subrange(32 + l1 as int, bytes@.len() as int) == u2);
                }
            }
            None
        },
    }
}

} // verus!
