//! A small verified map from strings to strings, used as the in-process
//! read-through cache in front of the durable store.

use vstd::prelude::*;
use crate::strutil::str_eq;

verus! {

/// An association list with pairwise distinct keys.
pub struct StringMap {
    entries: Vec<(String, String)>,
}

/// The map an association list stands for (later pairs win).
pub open spec fn spec_assoc_view(s: Seq<(String, String)>) -> Map<Seq<char>, Seq<char>>
    decreases s.len(),
{
    if s.len() == 0 {
        Map::empty()
    } else {
        spec_assoc_view(s.drop_last()).insert(s.last().0@, s.last().1@)
    }
}

pub proof fn lemma_assoc_view_contains(s: Seq<(String, String)>, k: Seq<char>)
    ensures
        spec_assoc_view(s).contains_key(k) <==> exists|i: int| 0 <= i < s.len() && s[i].0@ == k,
    decreases s.len(),
{
    if s.len() > 0 {
        lemma_assoc_view_contains(s.drop_last(), k);
        if s.last().0@ != k && spec_assoc_view(s).contains_key(k) {
            let i = choose|i: int| 0 <= i < s.drop_last().len() && s.drop_last()[i].0@ == k;
            assert(s[i].0@ == k);
        }
        if exists|i: int| 0 <= i < s.len() && s[i].0@ == k {
            let i = choose|i: int| 0 <= i < s.len() && s[i].0@ == k;
            if i < s.len() - 1 {
                assert(s.drop_last()[i].0@ == k);
            }
        }
    }
}

impl View for StringMap {
    type V = Map<Seq<char>, Seq<char>>;

    closed spec fn view(&self) -> Map<Seq<char>, Seq<char>> {
        spec_assoc_view(self.entries@)
    }
}

impl StringMap {
    /// Keys occur at most once.
    pub closed spec fn wf(&self) -> bool {
        forall|i: int, j: int|
            0 <= i < j < self.entries@.len() ==> self.entries@[i].0@ != self.entries@[j].0@
    }

    /// How many keys the map holds.
    pub closed spec fn spec_len(&self) -> nat {
        self.entries@.len()
    }

    pub fn new() -> (r: StringMap)
        ensures
            r@ == Map::<Seq<char>, Seq<char>>::empty(),
            r.wf(),
            r.spec_len() == 0,
    {
        StringMap { entries: Vec::new() }
    }

    /// The index of `k` among the entries, if it is there.
    fn find_index(&self, k: &str) -> (r: Option<usize>)
        ensures
            r matches Some(i) ==> i < self.entries@.len() && self.entries@[i as int].0@ == k@,
            r is None ==> forall|i: int| 0 <= i < self.entries@.len() ==> self.entries@[i].0@ != k@,
    {
        let n = self.entries.len();
        let mut i: usize = 0;
        while i < n
            invariant
                n == self.entries@.len(),
                i <= n,
                forall|j: int| 0 <= j < i ==> self.entries@[j].0@ != k@,
            decreases n - i,
        {
            if str_eq(self.entries[i].0.as_str(), k) {
                return Some(i);
            }
            i += 1;
        }
        None
    }

    /// The value stored under `k`, if any.
    pub fn get<'a>(&'a self, k: &str) -> (r: Option<&'a String>)
        requires
            self.wf(),
        ensures
            r matches Some(v) ==> self@.contains_key(k@) && self@[k@] == v@,
            r is None ==> !self@.contains_key(k@),
    {
        proof {
            lemma_assoc_view_contains(self.entries@, k@);
        }
        match self.find_index(k) {
            Some(i) => {
                proof {
                    lemma_assoc_lookup(self.entries@, i as int);
                }
                Some(&self.entries[i].1)
            },
            None => None,
        }
    }

    /// Stores `v` under `k`, replacing any previous value.
    pub fn insert(&mut self, k: String, v: String)
        requires
            old(self).wf(),
        ensures
            final(self)@ == old(self)@.insert(k@, v@),
            final(self).wf(),
            final(self).spec_len() == (if old(self)@.contains_key(k@) {
                old(self).spec_len()
            } else {
                old(self).spec_len() + 1
            }),
    {
        proof {
            lemma_assoc_view_contains(self.entries@, k@);
        }
        match self.find_index(k.as_str()) {
            Some(i) => {
                proof {
                    lemma_assoc_update(self.entries@, i as int, (k, v));
                }
                self.entries[i] = (k, v);
            },
            None => {
                self.entries.push((k, v));
                proof {
                    assert(self.entries@.drop_last() =~= old(self).entries@);
                }
            },
        }
    }

    /// Removes the entry under `k`, if one is there.
    pub fn remove(&mut self, k: &str)
        requires
            old(self).wf(),
        ensures
            final(self)@ == old(self)@.remove(k@),
            final(self).wf(),
            final(self).spec_len() == (if old(self)@.contains_key(k@) {
                (old(self).spec_len() - 1) as nat
            } else {
                old(self).spec_len()
            }),
    {
        proof {
            lemma_assoc_view_contains(self.entries@, k@);
        }
        match self.find_index(k) {
            Some(i) => {
                proof {
                    lemma_assoc_remove(self.entries@, i as int);
                }
                self.entries.remove(i);
            },
            None => {
                proof {
                    assert(old(self)@ =~= old(self)@.remove(k@));
                }
            },
        }
    }

    /// How many entries the map holds.
    pub fn len(&self) -> (r: usize)
        ensures
            r == self.spec_len(),
    {
        self.entries.len()
    }
}

/// Looking an index up in a well-formed association list reads the map.
proof fn lemma_assoc_lookup(s: Seq<(String, String)>, i: int)
    requires
        0 <= i < s.len(),
        forall|a: int, b: int| 0 <= a < b < s.len() ==> s[a].0@ != s[b].0@,
    ensures
        spec_assoc_view(s).contains_key(s[i].0@),
        spec_assoc_view(s)[s[i].0@] == s[i].1@,
    decreases s.len(),
{
    if i < s.len() - 1 {
        lemma_assoc_lookup(s.drop_last(), i);
        assert(s.last().0@ != s[i].0@);
    }
}

/// Replacing the pair at `i` by one with the same key updates the map at
/// that key and keeps the list well formed.
proof fn lemma_assoc_update(s: Seq<(String, String)>, i: int, p: (String, String))
    requires
        0 <= i < s.len(),
        s[i].0@ == p.0@,
        forall|a: int, b: int| 0 <= a < b < s.len() ==> s[a].0@ != s[b].0@,
    ensures
        spec_assoc_view(s.update(i, p)) == spec_assoc_view(s).insert(p.0@, p.1@),
    decreases s.len(),
{
    let k = p.0@;
    let v = p.1@;
    let t = s.update(i, p);
    if i == s.len() - 1 {
        assert(t.drop_last() =~= s.drop_last());
        assert(t.last() == p);
        assert(spec_assoc_view(t) =~= spec_assoc_view(s).insert(k, v));
    } else {
        lemma_assoc_update(s.drop_last(), i, p);
        assert(t.drop_last() =~= s.drop_last().update(i, p));
        assert(t.last() == s.last());
        lemma_assoc_view_contains(s.drop_last(), k);
        assert(spec_assoc_view(t) == spec_assoc_view(s.drop_last()).insert(k, v).insert(
            s.last().0@,
            s.last().1@,
        ));
        assert(s.last().0@ != k);
        assert(spec_assoc_view(s.drop_last()).insert(k, v).insert(s.last().0@, s.last().1@)
            =~= spec_assoc_view(s.drop_last()).insert(s.last().0@, s.last().1@).insert(k, v));
    }
}

/// Removing the pair at `i` removes exactly its key from the map and keeps
/// the list well formed.
proof fn lemma_assoc_remove(s: Seq<(String, String)>, i: int)
    requires
        0 <= i < s.len(),
        forall|a: int, b: int| 0 <= a < b < s.len() ==> s[a].0@ != s[b].0@,
    ensures
        spec_assoc_view(s.remove(i)) == spec_assoc_view(s).remove(s[i].0@),
    decreases s.len(),
{
    let k = s[i].0@;
    if i == s.len() - 1 {
        assert(s.remove(i) =~= s.drop_last());
        lemma_assoc_view_contains(s.drop_last(), k);
        assert(!spec_assoc_view(s.drop_last()).contains_key(k));
        assert(spec_assoc_view(s.drop_last()) =~= spec_assoc_view(s.drop_last()).insert(
            k,
            s[i].1@,
        ).remove(k));
    } else {
        lemma_assoc_remove(s.drop_last(), i);
        let t = s.remove(i);
        assert(t.drop_last() =~= s.drop_last().remove(i));
        assert(t.last() == s.last());
        assert(spec_assoc_view(t) == spec_assoc_view(s.drop_last()).remove(k).insert(
            s.last().0@,
            s.last().1@,
        ));
        assert(s.last().0@ != k);
        assert(spec_assoc_view(s.drop_last()).remove(k).insert(s.last().0@, s.last().1@)
            =~= spec_assoc_view(s.drop_last()).insert(s.last().0@, s.last().1@).remove(k));
    }
}

} // verus!
