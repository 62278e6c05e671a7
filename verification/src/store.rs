//! The durable key-value engine behind the version index.
//!
//! The engine is melange_db; its trees are held behind opaque handles, and
//! everything the library knows about a tree is stated over `tree_entries`,
//! the map of key bytes to value bytes it currently holds.

use vstd::prelude::*;

verus! {

/// An open database. What it holds is visible only through its trees.
#[verifier::external_body]
pub struct Database {
    db: melange_db::Db<1024>,
}

/// One tree (logical table) of the database.
#[verifier::external_body]
pub struct StoreTree {
    tree: melange_db::Tree<1024>,
}

/// The entries a tree currently holds: key bytes to value bytes.
pub uninterp spec fn tree_entries(t: StoreTree) -> Map<Seq<u8>, Seq<u8>>;

/// Does `p` stand at the front of `k`?
pub open spec fn spec_bytes_prefix(p: Seq<u8>, k: Seq<u8>) -> bool {
    p.len() <= k.len() && k.subrange(0, p.len() as int) == p
}

/// Do these pairs list exactly the entries of `m`, each key once?
pub open spec fn spec_lists_entries(m: Map<Seq<u8>, Seq<u8>>, s: Seq<(Vec<u8>, Vec<u8>)>) -> bool {
    &&& forall|i: int| 0 <= i < s.len() ==> m.contains_pair(s[i].0@, s[i].1@)
    &&& forall|k: Seq<u8>| m.contains_key(k) ==> exists|i: int| 0 <= i < s.len() && s[i].0@ == k
    &&& forall|i: int, j: int| 0 <= i < j < s.len() ==> s[i].0@ != s[j].0@
}

/// Do these pairs list exactly the entries of `m` whose key begins with
/// `p`, each key once?
pub open spec fn spec_lists_prefix_entries(
    m: Map<Seq<u8>, Seq<u8>>,
    p: Seq<u8>,
    s: Seq<(Vec<u8>, Vec<u8>)>,
) -> bool {
    &&& forall|i: int|
        0 <= i < s.len() ==> m.contains_pair(s[i].0@, s[i].1@) && spec_bytes_prefix(p, s[i].0@)
    &&& forall|k: Seq<u8>|
        m.contains_key(k) && spec_bytes_prefix(p, k) ==> exists|i: int|
            0 <= i < s.len() && s[i].0@ == k
    &&& forall|i: int, j: int| 0 <= i < j < s.len() ==> s[i].0@ != s[j].0@
}

/// Relies on melange_db::Config::open: opens (or creates) the database at
/// `path` with the given cache size and flush cadence. What its trees hold
/// is whatever the disk holds; nothing is assumed of it.
#[verifier::external_body]
pub(crate) fn db_open(
    path: &str,
    cache_capacity_bytes: usize,
    flush_every_ms: usize,
    min_flush_interval_ms: usize,
    max_flush_interval_ms: usize,
) -> (r: Result<Database, String>)
{
    let mut config = melange_db::Config::new()
        .path(path)
        .cache_capacity_bytes(cache_capacity_bytes)
        .flush_every_ms(Some(flush_every_ms));
    config.smart_flush_config.enabled = true;
    config.smart_flush_config.base_interval_ms = flush_every_ms;
    config.smart_flush_config.min_interval_ms = min_flush_interval_ms;
    config.smart_flush_config.max_interval_ms = max_flush_interval_ms;
    match config.open() {
        Ok(db) => Ok(Database { db }),
        Err(e) => Err(format!("{}", e)),
    }
}

/// Relies on melange_db::Db::open_tree: opens the tree of that name. Its
/// contents are whatever the disk holds; nothing is assumed of them.
///
/// Open each name once per database: the engine hands back a shared handle
/// for a repeated name, and `tree_entries` is meaningful only while a tree
/// has a single handle. The crate opens each of its two trees exactly once.
#[verifier::external_body]
pub(crate) fn db_open_tree(db: &Database, name: &str) -> (r: Result<StoreTree, String>)
{
    match db.db.open_tree(name.as_bytes()) {
        Ok(tree) => Ok(StoreTree { tree }),
        Err(e) => Err(format!("{}", e)),
    }
}

/// Relies on melange_db::Db::flush: forces buffered writes to disk.
#[verifier::external_body]
pub(crate) fn db_flush(db: &Database) -> (r: Result<(), String>)
{
    match db.db.flush() {
        Ok(_) => Ok(()),
        Err(e) => Err(format!("{}", e)),
    }
}

/// Relies on melange_db::Tree::get: a point lookup returning the value
/// stored under exactly this key.
#[verifier::external_body]
pub(crate) fn tree_get(t: &StoreTree, key: &Vec<u8>) -> (r: Result<Option<Vec<u8>>, String>)
    ensures
        r matches Ok(Some(v)) ==> tree_entries(*t).contains_key(key@) && tree_entries(*t)[key@]
            == v@,
        r matches Ok(None) ==> !tree_entries(*t).contains_key(key@),
{
    match t.tree.get(key.as_slice()) {
        Ok(Some(v)) => Ok(Some(v.as_ref().to_vec())),
        Ok(None) => Ok(None),
        Err(e) => Err(format!("{}", e)),
    }
}

/// Relies on melange_db::Tree::insert: stores `value` under `key`,
/// replacing any previous value.
#[verifier::external_body]
pub(crate) fn tree_insert(t: &mut StoreTree, key: &Vec<u8>, value: &Vec<u8>) -> (r: Result<(), String>)
    ensures
        r is Ok ==> tree_entries(*final(t)) == tree_entries(*old(t)).insert(key@, value@),
{
    match t.tree.insert(key.as_slice(), value.as_slice()) {
        Ok(_) => Ok(()),
        Err(e) => Err(format!("{}", e)),
    }
}

/// Relies on melange_db::Tree::remove: removes the entry under `key`, if
/// one is there. A failure strikes either before the point removal or in
/// the content-preserving leaf maintenance after it, so even then the
/// contents are the old ones or the old ones without exactly this key.
#[verifier::external_body]
pub(crate) fn tree_remove(t: &mut StoreTree, key: &Vec<u8>) -> (r: Result<(), String>)
    ensures
        r is Ok ==> tree_entries(*final(t)) == tree_entries(*old(t)).remove(key@),
        r is Err ==> (tree_entries(*final(t)) == tree_entries(*old(t)) || tree_entries(*final(t))
            == tree_entries(*old(t)).remove(key@)),
{
    match t.tree.remove(key.as_slice()) {
        Ok(_) => Ok(()),
        Err(e) => Err(format!("{}", e)),
    }
}

/// Relies on melange_db::Tree::iter: a full scan, yielding every entry
/// exactly once; stops at the first faulty item.
#[verifier::external_body]
pub(crate) fn tree_iter_all(t: &StoreTree) -> (r: Result<Vec<(Vec<u8>, Vec<u8>)>, String>)
    ensures
        r matches Ok(pairs) ==> spec_lists_entries(tree_entries(*t), pairs@),
{
    let mut out = Vec::new();
    for item in t.tree.iter() {
        match item {
            Ok((k, v)) => out.push((k.as_ref().to_vec(), v.as_ref().to_vec())),
            Err(e) => return Err(format!("{}", e)),
        }
    }
    Ok(out)
}

/// Relies on melange_db::Tree::scan_prefix: a range scan yielding exactly
/// the entries whose key begins with `prefix`, each once; stops at the
/// first faulty item.
#[verifier::external_body]
pub(crate) fn tree_scan_prefix(t: &StoreTree, prefix: &Vec<u8>) -> (r: Result<
    Vec<(Vec<u8>, Vec<u8>)>,
    String,
>)
    ensures
        r matches Ok(pairs) ==> spec_lists_prefix_entries(tree_entries(*t), prefix@, pairs@),
{
    let mut out = Vec::new();
    for item in t.tree.scan_prefix(prefix.as_slice()) {
        match item {
            Ok((k, v)) => out.push((k.as_ref().to_vec(), v.as_ref().to_vec())),
            Err(e) => return Err(format!("{}", e)),
        }
    }
    Ok(out)
}

} // verus!
