//! The artifact cache: byte content keyed by (package, version, filename),
//! each entry stamped with its creation time.
//!
//! Presence alone gates the read path — a present entry is served even past
//! its TTL. Only the sweep consults the TTL and removes stale entries. The
//! storage path of an artifact is a pure function of its identity.

use vstd::prelude::*;
use vstd::slice::slice_to_vec;
use vstd::string::StringExecFns;
use crate::strutil::str_eq;

verus! {

#[derive(Debug)]
pub enum CacheError {
    /// The underlying storage failed.
    IoError(String),
    /// The entry asked for is not in the cache.
    PathError(String),
}

/// Where one artifact stands and since when, with its TTL.
#[derive(Debug)]
pub struct CacheEntry {
    pub path: String,
    pub created_at: u64,
    pub ttl: u64,
}

/// Counts over the cache, gathered by one full walk.
#[derive(Debug, Default)]
pub struct CacheStats {
    pub total_files: u64,
    pub valid_files: u64,
    pub expired_files: u64,
    pub total_size: u64,
}

/// The identity of one artifact: package, version, filename.
pub type ArtKey = (String, String, String);

/// One stored artifact: its content and when it was created.
pub type ArtVal = (Vec<u8>, u64);

/// The key's view: the three name parts.
pub open spec fn spec_art_key(k: ArtKey) -> (Seq<char>, Seq<char>, Seq<char>) {
    (k.0@, k.1@, k.2@)
}

/// The map an artifact list stands for (later pairs win).
pub open spec fn spec_art_view(s: Seq<(ArtKey, ArtVal)>) -> Map<
    (Seq<char>, Seq<char>, Seq<char>),
    (Seq<u8>, u64),
>
    decreases s.len(),
{
    if s.len() == 0 {
        Map::empty()
    } else {
        spec_art_view(s.drop_last()).insert(
            spec_art_key(s.last().0),
            (s.last().1.0@, s.last().1.1),
        )
    }
}

pub proof fn lemma_art_view_contains(s: Seq<(ArtKey, ArtVal)>, k: (Seq<char>, Seq<char>, Seq<char>))
    ensures
        spec_art_view(s).contains_key(k) <==> exists|i: int|
            0 <= i < s.len() && spec_art_key(s[i].0) == k,
    decreases s.len(),
{
    if s.len() > 0 {
        lemma_art_view_contains(s.drop_last(), k);
        if spec_art_key(s.last().0) != k && spec_art_view(s).contains_key(k) {
            let i = choose|i: int|
                0 <= i < s.drop_last().len() && spec_art_key(s.drop_last()[i].0) == k;
            assert(spec_art_key(s[i].0) == k);
        }
        if exists|i: int| 0 <= i < s.len() && spec_art_key(s[i].0) == k {
            let i = choose|i: int| 0 <= i < s.len() && spec_art_key(s[i].0) == k;
            if i < s.len() - 1 {
                assert(spec_art_key(s.drop_last()[i].0) == k);
            }
        }
    }
}

/// Looking an index up in a well-formed artifact list reads the map.
proof fn lemma_art_lookup(s: Seq<(ArtKey, ArtVal)>, i: int)
    requires
        0 <= i < s.len(),
        forall|a: int, b: int|
            0 <= a < b < s.len() ==> spec_art_key(s[a].0) != spec_art_key(s[b].0),
    ensures
        spec_art_view(s).contains_key(spec_art_key(s[i].0)),
        spec_art_view(s)[spec_art_key(s[i].0)] == (s[i].1.0@, s[i].1.1),
    decreases s.len(),
{
    if i < s.len() - 1 {
        lemma_art_lookup(s.drop_last(), i);
        assert(spec_art_key(s.last().0) != spec_art_key(s[i].0));
    }
}

/// Replacing the pair at `i` by one with the same key updates the map at
/// that key.
proof fn lemma_art_update(s: Seq<(ArtKey, ArtVal)>, i: int, p: (ArtKey, ArtVal))
    requires
        0 <= i < s.len(),
        spec_art_key(s[i].0) == spec_art_key(p.0),
        forall|a: int, b: int|
            0 <= a < b < s.len() ==> spec_art_key(s[a].0) != spec_art_key(s[b].0),
    ensures
        spec_art_view(s.update(i, p)) == spec_art_view(s).insert(
            spec_art_key(p.0),
            (p.1.0@, p.1.1),
        ),
    decreases s.len(),
{
    let k = spec_art_key(p.0);
    let v = (p.1.0@, p.1.1);
    let t = s.update(i, p);
    if i == s.len() - 1 {
        assert(t.drop_last() =~= s.drop_last());
        assert(t.last() == p);
        assert(spec_art_view(t) =~= spec_art_view(s).insert(k, v));
    } else {
        lemma_art_update(s.drop_last(), i, p);
        assert(t.drop_last() =~= s.drop_last().update(i, p));
        assert(t.last() == s.last());
        lemma_art_view_contains(s.drop_last(), k);
        assert(spec_art_view(t) == spec_art_view(s.drop_last()).insert(k, v).insert(
            spec_art_key(s.last().0),
            (s.last().1.0@, s.last().1.1),
        ));
        assert(spec_art_key(s.last().0) != k);
        assert(spec_art_view(s.drop_last()).insert(k, v).insert(
            spec_art_key(s.last().0),
            (s.last().1.0@, s.last().1.1),
        ) =~= spec_art_view(s.drop_last()).insert(
            spec_art_key(s.last().0),
            (s.last().1.0@, s.last().1.1),
        ).insert(k, v));
    }
}

/// Removing the pair at `i` removes exactly its key from the map.
proof fn lemma_art_remove(s: Seq<(ArtKey, ArtVal)>, i: int)
    requires
        0 <= i < s.len(),
        forall|a: int, b: int|
            0 <= a < b < s.len() ==> spec_art_key(s[a].0) != spec_art_key(s[b].0),
    ensures
        spec_art_view(s.remove(i)) == spec_art_view(s).remove(spec_art_key(s[i].0)),
    decreases s.len(),
{
    let k = spec_art_key(s[i].0);
    if i == s.len() - 1 {
        assert(s.remove(i) =~= s.drop_last());
        lemma_art_view_contains(s.drop_last(), k);
        assert(!spec_art_view(s.drop_last()).contains_key(k));
        assert(spec_art_view(s.drop_last()) =~= spec_art_view(s.drop_last()).insert(
            k,
            (s[i].1.0@, s[i].1.1),
        ).remove(k));
    } else {
        lemma_art_remove(s.drop_last(), i);
        let t = s.remove(i);
        assert(t.drop_last() =~= s.drop_last().remove(i));
        assert(t.last() == s.last());
        assert(spec_art_view(t) == spec_art_view(s.drop_last()).remove(k).insert(
            spec_art_key(s.last().0),
            (s.last().1.0@, s.last().1.1),
        ));
        assert(spec_art_key(s.last().0) != k);
        assert(spec_art_view(s.drop_last()).remove(k).insert(
            spec_art_key(s.last().0),
            (s.last().1.0@, s.last().1.1),
        ) =~= spec_art_view(s.drop_last()).insert(
            spec_art_key(s.last().0),
            (s.last().1.0@, s.last().1.1),
        ).remove(k));
    }
}

/// Is an entry created at `created_at` past its life at `now`?
pub open spec fn spec_is_expired(created_at: u64, ttl: u64, now: u64) -> bool {
    now > created_at + ttl
}

/// What reading an identity yields: the stored bytes when the identity is
/// present, nothing otherwise.
pub open spec fn spec_read(
    m: Map<(Seq<char>, Seq<char>, Seq<char>), (Seq<u8>, u64)>,
    k: (Seq<char>, Seq<char>, Seq<char>),
) -> Option<Seq<u8>> {
    if m.contains_key(k) {
        Some(m[k].0)
    } else {
        None
    }
}

/// What the sweep leaves behind: exactly the entries that were fresh at
/// `now`, untouched.
pub open spec fn spec_cache_swept(
    m0: Map<(Seq<char>, Seq<char>, Seq<char>), (Seq<u8>, u64)>,
    m1: Map<(Seq<char>, Seq<char>, Seq<char>), (Seq<u8>, u64)>,
    ttl: u64,
    now: u64,
) -> bool {
    &&& forall|k: (Seq<char>, Seq<char>, Seq<char>)|
        #![trigger m1.contains_key(k)]
        #![trigger m0.contains_key(k)]
        m1.contains_key(k) == (m0.contains_key(k) && !spec_is_expired(m0[k].1, ttl, now))
    &&& forall|k: (Seq<char>, Seq<char>, Seq<char>)|
        #[trigger] m1.contains_key(k) ==> m1[k] == m0[k]
}

/// The running state of the sweep: nothing has been added, nothing fresh
/// has been removed.
#[verifier::opaque]
spec fn cache_sweep_inv(
    cur: Map<(Seq<char>, Seq<char>, Seq<char>), (Seq<u8>, u64)>,
    m0: Map<(Seq<char>, Seq<char>, Seq<char>), (Seq<u8>, u64)>,
    ttl: u64,
    now: u64,
) -> bool {
    &&& forall|k: (Seq<char>, Seq<char>, Seq<char>)|
        #[trigger] cur.contains_key(k) ==> m0.contains_key(k) && cur[k] == m0[k]
    &&& forall|k: (Seq<char>, Seq<char>, Seq<char>)|
        #[trigger] m0.contains_key(k) ==> (!spec_is_expired(m0[k].1, ttl, now)
            ==> cur.contains_key(k))
}

proof fn lemma_cache_sweep_init(
    m0: Map<(Seq<char>, Seq<char>, Seq<char>), (Seq<u8>, u64)>,
    ttl: u64,
    now: u64,
)
    ensures
        cache_sweep_inv(m0, m0, ttl, now),
{
    reveal(cache_sweep_inv);
}

proof fn lemma_cache_sweep_step(
    cur: Map<(Seq<char>, Seq<char>, Seq<char>), (Seq<u8>, u64)>,
    m0: Map<(Seq<char>, Seq<char>, Seq<char>), (Seq<u8>, u64)>,
    ttl: u64,
    now: u64,
    key_i: (Seq<char>, Seq<char>, Seq<char>),
    created_i: u64,
)
    requires
        cache_sweep_inv(cur, m0, ttl, now),
        cur.contains_key(key_i),
        cur[key_i].1 == created_i,
        spec_is_expired(created_i, ttl, now),
    ensures
        cache_sweep_inv(cur.remove(key_i), m0, ttl, now),
{
    reveal(cache_sweep_inv);
    let new = cur.remove(key_i);
    assert forall|k: (Seq<char>, Seq<char>, Seq<char>)| #[trigger]
        new.contains_key(k) implies m0.contains_key(k) && new[k] == m0[k] by {
        assert(cur.contains_key(k));
        assert(new[k] == cur[k]);
    }
    assert forall|k: (Seq<char>, Seq<char>, Seq<char>)| #[trigger]
        m0.contains_key(k) implies (!spec_is_expired(m0[k].1, ttl, now) ==> new.contains_key(
        k,
    )) by {
        if !spec_is_expired(m0[k].1, ttl, now) {
            assert(cur.contains_key(k));
            if k == key_i {
                assert(cur[k] == m0[k]);
            }
        }
    }
}

proof fn lemma_cache_sweep_finish(
    cur: Map<(Seq<char>, Seq<char>, Seq<char>), (Seq<u8>, u64)>,
    m0: Map<(Seq<char>, Seq<char>, Seq<char>), (Seq<u8>, u64)>,
    ttl: u64,
    now: u64,
)
    requires
        cache_sweep_inv(cur, m0, ttl, now),
        forall|k: (Seq<char>, Seq<char>, Seq<char>)|
            #![auto]
            cur.contains_key(k) ==> !spec_is_expired(cur[k].1, ttl, now),
    ensures
        spec_cache_swept(m0, cur, ttl, now),
{
    reveal(cache_sweep_inv);
    assert forall|k: (Seq<char>, Seq<char>, Seq<char>)|
        #![trigger cur.contains_key(k)]
        #![trigger m0.contains_key(k)]
        cur.contains_key(k) == (m0.contains_key(k) && !spec_is_expired(
            m0[k].1,
            ttl,
            now,
        )) by {
        if cur.contains_key(k) {
            assert(m0.contains_key(k) && cur[k] == m0[k]);
            assert(!spec_is_expired(cur[k].1, ttl, now));
        }
    }
    assert forall|k: (Seq<char>, Seq<char>, Seq<char>)| #[trigger]
        cur.contains_key(k) implies cur[k] == m0[k] by {
    }
}

/// The artifact cache over one storage root.
pub struct CacheManager {
    storage_path: String,
    default_ttl: u64,
    entries: Vec<(ArtKey, ArtVal)>,
}

impl View for CacheManager {
    type V = Map<(Seq<char>, Seq<char>, Seq<char>), (Seq<u8>, u64)>;

    closed spec fn view(&self) -> Map<(Seq<char>, Seq<char>, Seq<char>), (Seq<u8>, u64)> {
        spec_art_view(self.entries@)
    }
}

impl CacheManager {
    /// Keys occur at most once.
    pub closed spec fn wf(&self) -> bool {
        forall|a: int, b: int|
            0 <= a < b < self.entries@.len() ==> spec_art_key(self.entries@[a].0) != spec_art_key(
                self.entries@[b].0,
            )
    }

    pub closed spec fn spec_storage_path(&self) -> Seq<char> {
        self.storage_path@
    }

    pub closed spec fn spec_default_ttl(&self) -> u64 {
        self.default_ttl
    }

    /// How many artifacts are stored.
    pub closed spec fn spec_total_files(&self) -> nat {
        self.entries@.len()
    }

    /// How many stored artifacts are past their TTL at `now`.
    pub closed spec fn spec_expired_files(&self, now: u64) -> nat {
        spec_count_expired(self.entries@, self.default_ttl, now)
    }

    /// The stored content bytes in total, saturating.
    pub closed spec fn spec_total_size(&self) -> u64 {
        spec_size_sum_sat(self.entries@)
    }

    /// An empty cache over the given root; the root directory itself is the
    /// surrounding program's to create.
    pub fn new(storage_path: &str, default_ttl: u64) -> (r: Result<Self, CacheError>)
        ensures
            r matches Ok(c) ==> c@ == Map::<(Seq<char>, Seq<char>, Seq<char>), (Seq<u8>, u64)>::empty()
                && c.wf() && c.spec_storage_path() == storage_path@ && c.spec_default_ttl()
                == default_ttl,
            r is Ok,
    {
        Ok(
            CacheManager {
                storage_path: storage_path.to_owned(),
                default_ttl,
                entries: Vec::new(),
            },
        )
    }

    /// Where an artifact lives: a pure join of root, package, version and
    /// filename.
    pub fn get_cache_path(&self, crate_name: &str, version: &str, filename: &str) -> (r: String)
        ensures
            r@ == self.spec_storage_path() + "/"@ + crate_name@ + "/"@ + version@ + "/"@
                + filename@,
    {
        let mut s = self.storage_path.clone();
        s.append("/");
        s.append(crate_name);
        s.append("/");
        s.append(version);
        s.append("/");
        s.append(filename);
        s
    }

    /// The index of the artifact among the entries, if it is there.
    fn find_index(&self, crate_name: &str, version: &str, filename: &str) -> (r: Option<usize>)
        ensures
            r matches Some(i) ==> i < self.entries@.len() && spec_art_key(
                self.entries@[i as int].0,
            ) == (crate_name@, version@, filename@),
            r is None ==> forall|i: int|
                0 <= i < self.entries@.len() ==> spec_art_key(self.entries@[i].0) != (
                crate_name@,
                version@,
                filename@,
                ),
    {
        let n = self.entries.len();
        let mut i: usize = 0;
        while i < n
            invariant
                n == self.entries@.len(),
                i <= n,
                forall|j: int|
                    0 <= j < i ==> spec_art_key(self.entries@[j].0) != (
                    crate_name@,
                    version@,
                    filename@,
                    ),
            decreases n - i,
        {
            let key = &self.entries[i].0;
            if str_eq(key.0.as_str(), crate_name) && str_eq(key.1.as_str(), version) && str_eq(
                key.2.as_str(),
                filename,
            ) {
                return Some(i);
            }
            i += 1;
        }
        None
    }

    /// Is the artifact present? Its TTL is deliberately not consulted here:
    /// a present entry counts, stale or not; only the sweep retires it.
    pub fn is_cached(&self, crate_name: &str, version: &str, filename: &str) -> (r: bool)
        requires
            self.wf(),
        ensures
            r == self@.contains_key((crate_name@, version@, filename@)),
    {
        proof {
            lemma_art_view_contains(self.entries@, (crate_name@, version@, filename@));
        }
        match self.find_index(crate_name, version, filename) {
            Some(_) => true,
            None => false,
        }
    }

    /// Is an entry created at `created_at` past the configured TTL at `now`?
    pub fn is_expired(&self, created_at: u64, now: u64) -> (r: bool)
        ensures
            r == spec_is_expired(created_at, self.spec_default_ttl(), now),
    {
        if created_at > u64::MAX - self.default_ttl {
            false
        } else {
            now > created_at + self.default_ttl
        }
    }

    /// The stored bytes of a present artifact; asking for an absent one is
    /// an error. Freshness is not consulted, matching `is_cached`.
    pub fn get_cached_content(&self, crate_name: &str, version: &str, filename: &str) -> (r: Result<
        Vec<u8>,
        CacheError,
    >)
        requires
            self.wf(),
        ensures
            r matches Ok(c) ==> spec_read(self@, (crate_name@, version@, filename@)) == Some(c@),
            (r is Ok) == (spec_read(self@, (crate_name@, version@, filename@)) is Some),
            r is Err ==> r matches Err(CacheError::PathError(_)),
    {
        proof {
            lemma_art_view_contains(self.entries@, (crate_name@, version@, filename@));
        }
        match self.find_index(crate_name, version, filename) {
            Some(i) => {
                proof {
                    lemma_art_lookup(self.entries@, i as int);
                }
                Ok(slice_to_vec(self.entries[i].1.0.as_slice()))
            },
            None => Err(CacheError::PathError("artifact is not in the cache".to_owned())),
        }
    }

    /// Stores the artifact's bytes under its identity, stamped `now`,
    /// replacing any previous content for the same identity.
    pub fn save_to_cache(
        &mut self,
        crate_name: &str,
        version: &str,
        filename: &str,
        content: &[u8],
        now: u64,
    ) -> (r: Result<(), CacheError>)
        requires
            old(self).wf(),
        ensures
            final(self).wf(),
            final(self).spec_storage_path() == old(self).spec_storage_path(),
            final(self).spec_default_ttl() == old(self).spec_default_ttl(),
            final(self)@ == old(self)@.insert((crate_name@, version@, filename@), (content@, now)),
            r is Ok,
    {
        let key = (crate_name.to_owned(), version.to_owned(), filename.to_owned());
        let val = (slice_to_vec(content), now);
        proof {
            lemma_art_view_contains(self.entries@, (crate_name@, version@, filename@));
        }
        match self.find_index(crate_name, version, filename) {
            Some(i) => {
                proof {
                    lemma_art_update(self.entries@, i as int, (key, val));
                }
                self.entries[i] = (key, val);
            },
            None => {
                self.entries.push((key, val));
                proof {
                    assert(self.entries@.drop_last() =~= old(self).entries@);
                }
            },
        }
        Ok(())
    }

    /// The index of some entry past its TTL, if one is there.
    fn find_expired(&self, now: u64) -> (r: Option<usize>)
        ensures
            r matches Some(i) ==> i < self.entries@.len() && spec_is_expired(
                self.entries@[i as int].1.1,
                self.spec_default_ttl(),
                now,
            ),
            r is None ==> forall|i: int|
                0 <= i < self.entries@.len() ==> !spec_is_expired(
                    self.entries@[i].1.1,
                    self.spec_default_ttl(),
                    now,
                ),
    {
        let n = self.entries.len();
        let mut i: usize = 0;
        while i < n
            invariant
                n == self.entries@.len(),
                i <= n,
                forall|j: int|
                    0 <= j < i ==> !spec_is_expired(
                        self.entries@[j].1.1,
                        self.spec_default_ttl(),
                        now,
                    ),
            decreases n - i,
        {
            if self.is_expired(self.entries[i].1.1, now) {
                return Some(i);
            }
            i += 1;
        }
        None
    }

    /// The sweep: removes every entry past its TTL at `now` and keeps the
    /// fresh ones untouched.
    pub fn clear_expired_cache(&mut self, now: u64) -> (r: Result<(), CacheError>)
        requires
            old(self).wf(),
        ensures
            final(self).wf(),
            final(self).spec_storage_path() == old(self).spec_storage_path(),
            final(self).spec_default_ttl() == old(self).spec_default_ttl(),
            r is Ok,
            spec_cache_swept(old(self)@, final(self)@, old(self).spec_default_ttl(), now),
    {
        proof {
            lemma_cache_sweep_init(self@, self.spec_default_ttl(), now);
        }
        loop
            invariant
                self.wf(),
                self.spec_storage_path() == old(self).spec_storage_path(),
                self.spec_default_ttl() == old(self).spec_default_ttl(),
                cache_sweep_inv(self@, old(self)@, old(self).spec_default_ttl(), now),
            decreases self.entries@.len(),
        {
            match self.find_expired(now) {
                Some(i) => {
                    let ghost cur = self@;
                    let ghost key_i = spec_art_key(self.entries@[i as int].0);
                    let ghost created_i = self.entries@[i as int].1.1;
                    proof {
                        lemma_art_remove(self.entries@, i as int);
                        lemma_art_lookup(self.entries@, i as int);
                    }
                    self.entries.remove(i);
                    proof {
                        assert(self@ == cur.remove(key_i));
                        lemma_cache_sweep_step(
                            cur,
                            old(self)@,
                            old(self).spec_default_ttl(),
                            now,
                            key_i,
                            created_i,
                        );
                    }
                },
                None => {
                    proof {
                        assert forall|k: (Seq<char>, Seq<char>, Seq<char>)|
                            #![auto]
                            self@.contains_key(k) implies !spec_is_expired(
                            self@[k].1,
                            self.spec_default_ttl(),
                            now,
                        ) by {
                            lemma_art_view_contains(self.entries@, k);
                            let i = choose|i: int|
                                0 <= i < self.entries@.len() && spec_art_key(self.entries@[i].0)
                                    == k;
                            lemma_art_lookup(self.entries@, i);
                        }
                        lemma_cache_sweep_finish(
                            self@,
                            old(self)@,
                            old(self).spec_default_ttl(),
                            now,
                        );
                    }
                    return Ok(());
                },
            }
        }
    }

    /// Counts over the whole cache at `now`: how many artifacts are stored,
    /// how many of them are fresh or expired, and their total size (which
    /// saturates rather than wrap).
    pub fn get_cache_stats(&self, now: u64) -> (r: Result<CacheStats, CacheError>)
        requires
            self.wf(),
        ensures
            r matches Ok(st) ==> ({
                &&& st.total_files == self.spec_total_files()
                &&& st.expired_files == self.spec_expired_files(now)
                &&& st.valid_files + st.expired_files == st.total_files
                &&& st.total_size == self.spec_total_size()
            }),
            r is Ok,
    {
        let n = self.entries.len();
        let mut expired: u64 = 0;
        let mut size: u64 = 0;
        let mut i: usize = 0;
        proof {
            assert(self.entries@.skip(0) =~= self.entries@);
        }
        while i < n
            invariant
                self.wf(),
                n == self.entries@.len(),
                n <= usize::MAX,
                i <= n,
                expired <= i,
                expired + spec_count_expired(
                    self.entries@.skip(i as int),
                    self.spec_default_ttl(),
                    now,
                ) == spec_count_expired(self.entries@, self.spec_default_ttl(), now),
                size == spec_size_sum_sat(self.entries@.take(i as int)),
            decreases n - i,
        {
            proof {
                lemma_count_expired_step(self.entries@, self.spec_default_ttl(), now, i as int);
                lemma_size_sum_sat_take_step(self.entries@, i as int);
            }
            if self.is_expired(self.entries[i].1.1, now) {
                expired += 1;
            }
            let len_u64 = self.entries[i].1.0.len() as u64;
            if size > u64::MAX - len_u64 {
                size = u64::MAX;
            } else {
                size = size + len_u64;
            }
            i += 1;
        }
        proof {
            assert(self.entries@.skip(n as int) =~= Seq::<(ArtKey, ArtVal)>::empty());
            assert(self.entries@.take(n as int) =~= self.entries@);
        }
        Ok(
            CacheStats {
                total_files: n as u64,
                valid_files: (n as u64) - expired,
                expired_files: expired,
                total_size: size,
            },
        )
    }

    /// Counts over a walked file listing — one (creation time, size) pair
    /// per file on disk — against this cache's TTL at `now`. The total size
    /// saturates rather than wrap.
    pub fn stats_for_files(&self, files: &Vec<(u64, u64)>, now: u64) -> (r: CacheStats)
        requires
            files@.len() <= u64::MAX,
        ensures
            r.total_files == files@.len(),
            r.expired_files == spec_count_expired_files(files@, self.spec_default_ttl(), now),
            r.valid_files + r.expired_files == r.total_files,
            r.total_size == spec_size_sum_files(files@),
    {
        let n = files.len();
        let mut expired: u64 = 0;
        let mut size: u64 = 0;
        let mut i: usize = 0;
        proof {
            assert(files@.skip(0) =~= files@);
        }
        while i < n
            invariant
                n == files@.len(),
                n <= u64::MAX,
                i <= n,
                expired <= i,
                expired + spec_count_expired_files(
                    files@.skip(i as int),
                    self.spec_default_ttl(),
                    now,
                ) == spec_count_expired_files(files@, self.spec_default_ttl(), now),
                size == spec_size_sum_files(files@.take(i as int)),
            decreases n - i,
        {
            proof {
                lemma_count_expired_files_step(files@, self.spec_default_ttl(), now, i as int);
                lemma_size_sum_files_take_step(files@, i as int);
            }
            if self.is_expired(files[i].0, now) {
                expired += 1;
            }
            let len_u64 = files[i].1;
            if size > u64::MAX - len_u64 {
                size = u64::MAX;
            } else {
                size = size + len_u64;
            }
            i += 1;
        }
        proof {
            assert(files@.skip(n as int) =~= Seq::<(u64, u64)>::empty());
            assert(files@.take(n as int) =~= files@);
        }
        CacheStats {
            total_files: n as u64,
            valid_files: (n as u64) - expired,
            expired_files: expired,
            total_size: size,
        }
    }
}

/// How many walked files are past their TTL at `now`; a file is given as
/// its (creation time, size) pair.
pub open spec fn spec_count_expired_files(s: Seq<(u64, u64)>, ttl: u64, now: u64) -> nat
    decreases s.len(),
{
    if s.len() == 0 {
        0
    } else {
        (if spec_is_expired(s[0].0, ttl, now) {
            1nat
        } else {
            0nat
        }) + spec_count_expired_files(s.skip(1), ttl, now)
    }
}

proof fn lemma_count_expired_files_step(s: Seq<(u64, u64)>, ttl: u64, now: u64, i: int)
    requires
        0 <= i < s.len(),
    ensures
        spec_count_expired_files(s.skip(i), ttl, now) == (if spec_is_expired(s[i].0, ttl, now) {
            1nat
        } else {
            0nat
        }) + spec_count_expired_files(s.skip(i + 1), ttl, now),
{
    assert(s.skip(i)[0] == s[i]);
    assert(s.skip(i).skip(1) =~= s.skip(i + 1));
}

/// The total size of the walked files, saturating at the largest count.
pub open spec fn spec_size_sum_files(s: Seq<(u64, u64)>) -> u64
    decreases s.len(),
{
    if s.len() == 0 {
        0u64
    } else {
        let rest = spec_size_sum_files(s.drop_last());
        let x = s.last().1;
        if rest > u64::MAX - x {
            u64::MAX
        } else {
            (rest + x) as u64
        }
    }
}

proof fn lemma_size_sum_files_take_step(s: Seq<(u64, u64)>, i: int)
    requires
        0 <= i < s.len(),
    ensures
        spec_size_sum_files(s.take(i + 1)) == ({
            let rest = spec_size_sum_files(s.take(i));
            let x = s[i].1;
            if rest > u64::MAX - x {
                u64::MAX
            } else {
                (rest + x) as u64
            }
        }),
{
    assert(s.take(i + 1).drop_last() =~= s.take(i));
    assert(s.take(i + 1).last() == s[i]);
}

/// How many entries are past their TTL at `now`.
pub open spec fn spec_count_expired(s: Seq<(ArtKey, ArtVal)>, ttl: u64, now: u64) -> nat
    decreases s.len(),
{
    if s.len() == 0 {
        0
    } else {
        (if spec_is_expired(s[0].1.1, ttl, now) {
            1nat
        } else {
            0nat
        }) + spec_count_expired(s.skip(1), ttl, now)
    }
}

proof fn lemma_count_expired_step(s: Seq<(ArtKey, ArtVal)>, ttl: u64, now: u64, i: int)
    requires
        0 <= i < s.len(),
    ensures
        spec_count_expired(s.skip(i), ttl, now) == (if spec_is_expired(s[i].1.1, ttl, now) {
            1nat
        } else {
            0nat
        }) + spec_count_expired(s.skip(i + 1), ttl, now),
{
    assert(s.skip(i)[0] == s[i]);
    assert(s.skip(i).skip(1) =~= s.skip(i + 1));
}

/// The total content size, saturating at the largest count.
pub open spec fn spec_size_sum_sat(s: Seq<(ArtKey, ArtVal)>) -> u64
    decreases s.len(),
{
    if s.len() == 0 {
        0u64
    } else {
        let rest = spec_size_sum_sat(s.drop_last());
        let x = s.last().1.0.len() as u64;
        if rest > u64::MAX - x {
            u64::MAX
        } else {
            (rest + x) as u64
        }
    }
}

proof fn lemma_size_sum_sat_take_step(s: Seq<(ArtKey, ArtVal)>, i: int)
    requires
        0 <= i < s.len(),
    ensures
        spec_size_sum_sat(s.take(i + 1)) == ({
            let rest = spec_size_sum_sat(s.take(i));
            let x = s[i].1.0.len() as u64;
            if rest > u64::MAX - x {
                u64::MAX
            } else {
                (rest + x) as u64
            }
        }),
{
    assert(s.take(i + 1).drop_last() =~= s.take(i));
    assert(s.take(i + 1).last() == s[i]);
}

/// Round trip: writing an artifact and reading the same identity back
/// yields exactly the bytes written, whatever the cache held before.
/// `save_to_cache` ensures the insertion on the view; `get_cached_content`
/// reads the view through `spec_read`.
pub proof fn lemma_cache_round_trip(
    m: Map<(Seq<char>, Seq<char>, Seq<char>), (Seq<u8>, u64)>,
    k: (Seq<char>, Seq<char>, Seq<char>),
    content: Seq<u8>,
    now: u64,
)
    ensures
        spec_read(m.insert(k, (content, now)), k) == Some(content),
{
}

/// The cache-read gate: an identity `is_cached` answers true on is one the
/// content lookup succeeds on — never cached but unreadable.
pub proof fn lemma_cached_is_readable(
    m: Map<(Seq<char>, Seq<char>, Seq<char>), (Seq<u8>, u64)>,
    k: (Seq<char>, Seq<char>, Seq<char>),
)
    ensures
        m.contains_key(k) ==> spec_read(m, k) is Some,
{
}

} // verus!
