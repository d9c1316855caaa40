//! Insertion-ordered maps with unique string keys.
//!
//! The compiler accumulates selector and keyframe declarations in maps
//! whose iteration order must be reproducible, so they are kept as plain
//! entry vectors with unique keys rather than hashed containers.
use vstd::prelude::*;

use crate::text::str_eq;
use crate::{MetaData, MetaV};

verus! {

/// One selector (or frame selector) and its declaration lines, in
/// insertion order.
#[derive(Debug)]
pub struct MapEntry {
    pub key: String,
    pub values: Vec<String>,
}

/// A map from a string key to an ordered sequence of declaration lines.
#[derive(Debug)]
pub struct StrMap {
    pub entries: Vec<MapEntry>,
}

impl DeepView for MapEntry {
    type V = (Seq<char>, Seq<Seq<char>>);

    open spec fn deep_view(&self) -> (Seq<char>, Seq<Seq<char>>) {
        (self.key@, self.values.deep_view())
    }
}

/// The index of the first entry with key `k`, or `s.len()` if none has it.
pub open spec fn assoc_idx<V>(s: Seq<(Seq<char>, V)>, k: Seq<char>) -> int
    decreases s.len(),
{
    if s.len() == 0 {
        0
    } else if s[0].0 == k {
        0
    } else {
        1 + assoc_idx(s.subrange(1, s.len() as int), k)
    }
}

/// The values stored under key `k`, if any entry has it.
pub open spec fn assoc_get<V>(s: Seq<(Seq<char>, V)>, k: Seq<char>) -> Option<V>
    decreases s.len(),
{
    if s.len() == 0 {
        None
    } else if s[0].0 == k {
        Some(s[0].1)
    } else {
        assoc_get(s.subrange(1, s.len() as int), k)
    }
}

/// `s` with `vs` appended to the values under `k`; a missing key gains a
/// new entry at the end, so first insertion fixes the iteration position.
pub open spec fn assoc_append(
    s: Seq<(Seq<char>, Seq<Seq<char>>)>,
    k: Seq<char>,
    vs: Seq<Seq<char>>,
) -> Seq<(Seq<char>, Seq<Seq<char>>)> {
    let i = assoc_idx(s, k);
    if i < s.len() {
        s.update(i, (k, s[i].1 + vs))
    } else {
        s.push((k, vs))
    }
}

/// `s` with the entry for `k` replaced by `v`; a missing key gains a new
/// entry at the end.
pub open spec fn assoc_set<V>(s: Seq<(Seq<char>, V)>, k: Seq<char>, v: V) -> Seq<(Seq<char>, V)> {
    let i = assoc_idx(s, k);
    if i < s.len() {
        s.update(i, (k, v))
    } else {
        s.push((k, v))
    }
}

/// Keys are unique.
pub open spec fn assoc_wf<V>(s: Seq<(Seq<char>, V)>) -> bool {
    forall|i: int, j: int| 0 <= i < j < s.len() ==> s[i].0 != s[j].0
}

proof fn lemma_assoc_idx_bounds<V>(s: Seq<(Seq<char>, V)>, k: Seq<char>)
    ensures
        0 <= assoc_idx(s, k) <= s.len(),
        assoc_idx(s, k) < s.len() ==> s[assoc_idx(s, k)].0 == k,
        forall|m: int| 0 <= m < assoc_idx(s, k) ==> s[m].0 != k,
        (assoc_idx(s, k) < s.len()) == (assoc_get(s, k) is Some),
        assoc_idx(s, k) < s.len() ==> assoc_get(s, k) == Some(s[assoc_idx(s, k)].1),
    decreases s.len(),
{
    if s.len() > 0 && s[0].0 != k {
        let t = s.subrange(1, s.len() as int);
        lemma_assoc_idx_bounds(t, k);
        assert forall|m: int| 0 <= m < assoc_idx(s, k) implies #[trigger] s[m].0 != k by {
            if m > 0 {
                assert(t[m - 1] == s[m]);
                assert(t[m - 1].0 != k);
            }
        }
    }
}

/// The facts about the first matching index that every caller needs.
pub broadcast proof fn lemma_assoc_idx<V>(s: Seq<(Seq<char>, V)>, k: Seq<char>)
    ensures
        0 <= #[trigger] assoc_idx(s, k) <= s.len(),
        assoc_idx(s, k) < s.len() ==> s[assoc_idx(s, k)].0 == k,
        forall|m: int| 0 <= m < assoc_idx(s, k) ==> s[m].0 != k,
        (assoc_idx(s, k) < s.len()) == (assoc_get(s, k) is Some),
        assoc_idx(s, k) < s.len() ==> assoc_get(s, k) == Some(s[assoc_idx(s, k)].1),
{
    lemma_assoc_idx_bounds(s, k);
}

impl StrMap {
    /// The association-list view: keys with their value sequences, in
    /// insertion order.
    pub open spec fn view_spec(&self) -> Seq<(Seq<char>, Seq<Seq<char>>)> {
        self.entries.deep_view()
    }

    /// Keys are unique.
    pub open spec fn wf(&self) -> bool {
        assoc_wf(self.view_spec())
    }

    /// An empty map.
    pub fn new() -> (r: StrMap)
        ensures
            r.view_spec() == Seq::<(Seq<char>, Seq<Seq<char>>)>::empty(),
            r.wf(),
    {
        let r = StrMap { entries: Vec::new() };
        proof {
            assert(r.entries.deep_view() =~= Seq::<(Seq<char>, Seq<Seq<char>>)>::empty());
        }
        r
    }

    /// The index of the entry with this key, if one exists.
    fn find(&self, key: &str) -> (r: Option<usize>)
        ensures
            match r {
                Some(i) => i < self.view_spec().len() && i as int == assoc_idx(
                    self.view_spec(),
                    key@,
                ),
                None => assoc_idx(self.view_spec(), key@) == self.view_spec().len(),
            },
    {
        broadcast use lemma_assoc_idx;

        let n = self.entries.len();
        let mut i: usize = 0;
        while i < n
            invariant
                0 <= i <= n,
                n == self.view_spec().len(),
                forall|m: int| 0 <= m < i ==> self.view_spec()[m].0 != key@,
            decreases n - i,
        {
            if str_eq(self.entries[i].key.as_str(), key) {
                proof {
                    lemma_assoc_idx(self.view_spec(), key@);
                    assert(self.view_spec()[i as int].0 == key@);
                }
                return Some(i);
            }
            i = i + 1;
        }
        None
    }

    /// The values under `key`, if present.
    pub fn get(&self, key: &str) -> (r: Option<&Vec<String>>)
        ensures
            match r {
                Some(vs) => assoc_get(self.view_spec(), key@) == Some(vs.deep_view()),
                None => assoc_get(self.view_spec(), key@) is None,
            },
    {
        broadcast use lemma_assoc_idx;

        match self.find(key) {
            Some(i) => Some(&self.entries[i].values),
            None => None,
        }
    }

    /// Appends the given lines to the entry for `key`, creating the entry
    /// at the end of the map if the key is new.
    pub fn append_values(&mut self, key: &str, mut vs: Vec<String>)
        ensures
            final(self).view_spec() == assoc_append(old(self).view_spec(), key@, vs.deep_view()),
            old(self).wf() ==> final(self).wf(),
    {
        broadcast use lemma_assoc_idx;

        let ghost s0 = self.view_spec();
        let ghost vs0 = vs.deep_view();
        match self.find(key) {
            Some(i) => {
                let mut entry = self.entries.remove(i);
                entry.values.append(&mut vs);
                self.entries.insert(i, entry);
                proof {
                    assert(self.view_spec() =~= s0.update(
                        i as int,
                        (key@, s0[i as int].1 + vs0),
                    )) by {
                        assert(self.entries.deep_view().len() == s0.len());
                        assert(forall|m: int|
                            0 <= m < s0.len() && m != i ==> self.entries.deep_view()[m] == s0[m]);
                        assert(self.entries.deep_view()[i as int].0 == key@);
                        assert(self.entries.deep_view()[i as int].1 =~= s0[i as int].1 + vs0);
                    }
                    if assoc_wf(s0) {
                        assert(forall|m: int|
                            0 <= m < s0.len() ==> self.view_spec()[m].0 == s0[m].0);
                        assert(assoc_wf(self.view_spec()));
                    }
                }
            },
            None => {
                let entry = MapEntry { key: key.to_owned(), values: vs };
                self.entries.push(entry);
                proof {
                    assert(self.view_spec() =~= s0.push((key@, vs.deep_view())));
                    if assoc_wf(s0) {
                        assert forall|i: int, j: int|
                            0 <= i < j < self.view_spec().len() implies self.view_spec()[i].0
                            != self.view_spec()[j].0 by {
                            if j == s0.len() {
                                assert(self.view_spec()[i].0 == s0[i].0);
                                assert(forall|m: int| 0 <= m < s0.len() ==> s0[m].0 != key@);
                            }
                        }
                    }
                }
            },
        }
    }

    /// Appends one line to the entry for `key`.
    pub fn push_value(&mut self, key: &str, v: String)
        ensures
            final(self).view_spec() == assoc_append(old(self).view_spec(), key@, seq![v@]),
            old(self).wf() ==> final(self).wf(),
    {
        let mut vs: Vec<String> = Vec::new();
        vs.push(v);
        proof {
            assert(vs.deep_view() =~= seq![v@]);
        }
        self.append_values(key, vs);
    }
}

/// One block condition (a keyframes header or a media condition) and its
/// inner selector map.
#[derive(Debug)]
pub struct NestedEntry {
    pub key: String,
    pub inner: StrMap,
}

/// A map from a block key to an inner selector map, in insertion order.
#[derive(Debug)]
pub struct NestedMap {
    pub entries: Vec<NestedEntry>,
}

impl DeepView for NestedEntry {
    type V = (Seq<char>, Seq<(Seq<char>, Seq<Seq<char>>)>);

    open spec fn deep_view(&self) -> (Seq<char>, Seq<(Seq<char>, Seq<Seq<char>>)>) {
        (self.key@, self.inner.view_spec())
    }
}

impl NestedMap {
    /// The association-list view: block keys with their inner maps.
    pub open spec fn view_spec(&self) -> Seq<(Seq<char>, Seq<(Seq<char>, Seq<Seq<char>>)>)> {
        self.entries.deep_view()
    }

    /// Keys are unique.
    pub open spec fn wf(&self) -> bool {
        assoc_wf(self.view_spec())
    }

    /// An empty map.
    pub fn new() -> (r: NestedMap)
        ensures
            r.view_spec() == Seq::<(Seq<char>, Seq<(Seq<char>, Seq<Seq<char>>)>)>::empty(),
            r.wf(),
    {
        let r = NestedMap { entries: Vec::new() };
        proof {
            assert(r.entries.deep_view() =~= Seq::<
                (Seq<char>, Seq<(Seq<char>, Seq<Seq<char>>)>),
            >::empty());
        }
        r
    }

    /// The index of the entry with this key, if one exists.
    fn find(&self, key: &str) -> (r: Option<usize>)
        ensures
            match r {
                Some(i) => i < self.view_spec().len() && i as int == assoc_idx(
                    self.view_spec(),
                    key@,
                ),
                None => assoc_idx(self.view_spec(), key@) == self.view_spec().len(),
            },
    {
        broadcast use lemma_assoc_idx;

        let n = self.entries.len();
        let mut i: usize = 0;
        while i < n
            invariant
                0 <= i <= n,
                n == self.view_spec().len(),
                forall|m: int| 0 <= m < i ==> self.view_spec()[m].0 != key@,
            decreases n - i,
        {
            if str_eq(self.entries[i].key.as_str(), key) {
                proof {
                    lemma_assoc_idx(self.view_spec(), key@);
                    assert(self.view_spec()[i as int].0 == key@);
                }
                return Some(i);
            }
            i = i + 1;
        }
        None
    }

    /// Stores `inner` under `key`, replacing any earlier entry for the
    /// same key: the last block written for a condition wins.
    pub fn set(&mut self, key: &str, inner: StrMap)
        ensures
            final(self).view_spec() == assoc_set(
                old(self).view_spec(),
                key@,
                inner.view_spec(),
            ),
            old(self).wf() ==> final(self).wf(),
    {
        broadcast use lemma_assoc_idx;

        let ghost s0 = self.view_spec();
        let entry = NestedEntry { key: key.to_owned(), inner };
        match self.find(key) {
            Some(i) => {
                let _ = self.entries.remove(i);
                self.entries.insert(i, entry);
                proof {
                    assert(self.view_spec() =~= s0.update(
                        i as int,
                        (key@, entry.inner.view_spec()),
                    )) by {
                        assert(self.entries.deep_view().len() == s0.len());
                        assert(forall|m: int|
                            0 <= m < s0.len() && m != i ==> self.entries.deep_view()[m] == s0[m]);
                    }
                    if assoc_wf(s0) {
                        assert(forall|m: int|
                            0 <= m < s0.len() ==> self.view_spec()[m].0 == s0[m].0);
                        assert(assoc_wf(self.view_spec()));
                    }
                }
            },
            None => {
                self.entries.push(entry);
                proof {
                    assert(self.view_spec() =~= s0.push((key@, entry.inner.view_spec())));
                    if assoc_wf(s0) {
                        assert forall|i: int, j: int|
                            0 <= i < j < self.view_spec().len() implies self.view_spec()[i].0
                            != self.view_spec()[j].0 by {
                            if j == s0.len() {
                                assert(self.view_spec()[i].0 == s0[i].0);
                                assert(forall|m: int| 0 <= m < s0.len() ==> s0[m].0 != key@);
                            }
                        }
                    }
                }
            },
        }
    }
}

/// One cached file: its canonical path and its completed metadata record.
#[derive(Debug)]
pub struct CacheEntry {
    pub path: String,
    pub data: Vec<MetaData>,
}

/// The project cache: the map from canonical file path to that file's
/// metadata record, read on every import and replaced wholesale when a
/// file is recompiled.
#[derive(Debug)]
pub struct ProjectCache {
    pub entries: Vec<CacheEntry>,
}

impl DeepView for CacheEntry {
    type V = (Seq<char>, Seq<MetaV>);

    open spec fn deep_view(&self) -> (Seq<char>, Seq<MetaV>) {
        (self.path@, self.data.deep_view())
    }
}

impl ProjectCache {
    /// The association-list view: file paths with their metadata records.
    pub open spec fn view_spec(&self) -> Seq<(Seq<char>, Seq<MetaV>)> {
        self.entries.deep_view()
    }

    /// Paths are unique.
    pub open spec fn wf(&self) -> bool {
        assoc_wf(self.view_spec())
    }

    /// An empty cache.
    pub fn new() -> (r: ProjectCache)
        ensures
            r.view_spec() == Seq::<(Seq<char>, Seq<MetaV>)>::empty(),
            r.wf(),
    {
        let r = ProjectCache { entries: Vec::new() };
        proof {
            assert(r.entries.deep_view() =~= Seq::<(Seq<char>, Seq<MetaV>)>::empty());
        }
        r
    }

    /// The index of the entry with this path, if one exists.
    fn find(&self, path: &str) -> (r: Option<usize>)
        ensures
            match r {
                Some(i) => i < self.view_spec().len() && i as int == assoc_idx(
                    self.view_spec(),
                    path@,
                ),
                None => assoc_idx(self.view_spec(), path@) == self.view_spec().len(),
            },
    {
        broadcast use lemma_assoc_idx;

        let n = self.entries.len();
        let mut i: usize = 0;
        while i < n
            invariant
                0 <= i <= n,
                n == self.view_spec().len(),
                forall|m: int| 0 <= m < i ==> self.view_spec()[m].0 != path@,
            decreases n - i,
        {
            if str_eq(self.entries[i].path.as_str(), path) {
                proof {
                    lemma_assoc_idx(self.view_spec(), path@);
                    assert(self.view_spec()[i as int].0 == path@);
                }
                return Some(i);
            }
            i = i + 1;
        }
        None
    }

    /// The metadata record cached for `path`, if that file was compiled.
    pub fn get(&self, path: &str) -> (r: Option<&Vec<MetaData>>)
        ensures
            match r {
                Some(d) => assoc_get(self.view_spec(), path@) == Some(d.deep_view()),
                None => assoc_get(self.view_spec(), path@) is None,
            },
    {
        broadcast use lemma_assoc_idx;

        match self.find(path) {
            Some(i) => Some(&self.entries[i].data),
            None => None,
        }
    }

    /// Stores a freshly compiled record for `path`, replacing any earlier
    /// one wholesale.
    pub fn set(&mut self, path: &str, data: Vec<MetaData>)
        ensures
            final(self).view_spec() == assoc_set(
                old(self).view_spec(),
                path@,
                data.deep_view(),
            ),
            old(self).wf() ==> final(self).wf(),
    {
        broadcast use lemma_assoc_idx;

        let ghost s0 = self.view_spec();
        let entry = CacheEntry { path: path.to_owned(), data };
        match self.find(path) {
            Some(i) => {
                let _ = self.entries.remove(i);
                self.entries.insert(i, entry);
                proof {
                    assert(self.view_spec() =~= s0.update(
                        i as int,
                        (path@, entry.data.deep_view()),
                    )) by {
                        assert(self.entries.deep_view().len() == s0.len());
                        assert(forall|m: int|
                            0 <= m < s0.len() && m != i ==> self.entries.deep_view()[m] == s0[m]);
                    }
                    if assoc_wf(s0) {
                        assert(forall|m: int|
                            0 <= m < s0.len() ==> self.view_spec()[m].0 == s0[m].0);
                        assert(assoc_wf(self.view_spec()));
                    }
                }
            },
            None => {
                self.entries.push(entry);
                proof {
                    assert(self.view_spec() =~= s0.push((path@, entry.data.deep_view())));
                    if assoc_wf(s0) {
                        assert forall|i: int, j: int|
                            0 <= i < j < self.view_spec().len() implies self.view_spec()[i].0
                            != self.view_spec()[j].0 by {
                            if j == s0.len() {
                                assert(self.view_spec()[i].0 == s0[i].0);
                                assert(forall|m: int| 0 <= m < s0.len() ==> s0[m].0 != path@);
                            }
                        }
                    }
                }
            },
        }
    }
}

} // verus!
