use vstd::prelude::*;
use crate::index::{Index, Indexer};
use crate::note::{InlineModel, tags_from};
use crate::parser::{ErrorModel, ParseInlineError};
use crate::table::{cache_map_contents, CacheMap};

verus! {

/// A modification time: whole seconds since the Unix epoch (negative before it) and the
/// nanoseconds within that second.
#[derive(Clone, Copy, Debug, PartialEq, Eq, Hash, Structural)]
pub struct Timestamp {
    pub secs: i64,
    pub nanos: u32,
}

/// `a` is not later than `b`.
pub open spec fn not_later(a: Timestamp, b: Timestamp) -> bool {
    a.secs < b.secs || (a.secs == b.secs && a.nanos <= b.nanos)
}

impl Timestamp {
    /// Whether this time is not later than `o`.
    pub fn not_later_than(&self, o: &Timestamp) -> (r: bool)
        ensures
            r == not_later(*self, *o),
    {
        self.secs < o.secs || (self.secs == o.secs && self.nanos <= o.nanos)
    }
}

/// The identity of a file: its path and its modification time.
#[derive(Clone, Debug, Eq, Hash)]
pub struct CacheKey {
    pub path: String,
    pub modified: Timestamp,
}

/// What identifies a file, as plain values.
pub type KeyView = (Seq<char>, Timestamp);

impl View for CacheKey {
    type V = KeyView;

    open spec fn view(&self) -> KeyView {
        (self.path@, self.modified)
    }
}

impl PartialEq for CacheKey {
    fn eq(&self, o: &CacheKey) -> (r: bool) {
        self.modified == o.modified && self.path == o.path
    }
}

impl vstd::std_specs::cmp::PartialEqSpecImpl for CacheKey {
    open spec fn obeys_eq_spec() -> bool {
        true
    }

    open spec fn eq_spec(&self, o: &CacheKey) -> bool {
        self@ == o@
    }
}

impl CacheKey {
    /// The key of a file at `path` modified at `modified`; none where the path is not a plain
    /// file (a directory or a link).
    pub fn from_path(path: String, is_file: bool, modified: Timestamp) -> (r: Option<CacheKey>)
        ensures
            is_file <==> r is Some,
            r is Some ==> r->0@ == (path@, modified),
    {
        if is_file {
            Some(CacheKey { path, modified })
        } else {
            None
        }
    }

    /// A copy of this key.
    pub fn duplicate(&self) -> (r: CacheKey)
        ensures
            r@ == self@,
    {
        CacheKey { path: self.path.clone(), modified: self.modified }
    }
}

/// The views of a sequence of keys.
pub open spec fn key_views(v: Seq<CacheKey>) -> Seq<KeyView> {
    v.map_values(|k: CacheKey| k@)
}

/// The index of every file, by the file's key.
#[derive(Debug)]
pub struct FileCache {
    pub map: CacheMap,
}

impl FileCache {
    /// Every index well formed.
    pub open spec fn wf(&self) -> bool {
        forall|k: KeyView| #[trigger]
            cache_map_contents(self.map).contains_key(k) ==> cache_map_contents(self.map)[k].wf()
    }

    /// The index stored under `k`.
    pub open spec fn index_of(&self, k: KeyView) -> Option<Index> {
        if cache_map_contents(self.map).contains_key(k) {
            Some(cache_map_contents(self.map)[k])
        } else {
            None
        }
    }

    /// A cache with no entry.
    pub fn new() -> (r: FileCache)
        ensures
            r.wf(),
            forall|k: KeyView| r.index_of(k) is None,
    {
        FileCache { map: CacheMap::new() }
    }

    /// The index stored under `key`.
    pub fn get(&self, key: &CacheKey) -> (r: Option<&Index>)
        ensures
            match r {
                Some(ix) => self.index_of(key@) == Some(*ix),
                None => self.index_of(key@) is None,
            },
    {
        self.map.get(key)
    }

    /// The key of every file that the cache holds, each once.
    pub fn keys(&self) -> (r: Vec<CacheKey>)
        ensures
            key_views(r@).no_duplicates(),
            forall|k: KeyView| #[trigger] key_views(r@).contains(k) <==> self.index_of(k) is Some,
    {
        let r = self.map.keys();
        assert forall|k: KeyView| #[trigger] key_views(r@).contains(k) <==> self.index_of(k) is Some by {
            assert(key_views(r@).to_set().contains(k) == key_views(r@).contains(k));
        }
        r
    }
}

/// What a rebuild for the files `keys` carries over from `prev` under the key `k`: the stored
/// index, where `k` is still among the files.
pub open spec fn kept(prev: FileCache, keys: Seq<KeyView>, k: KeyView) -> Option<Index> {
    if keys.contains(k) {
        prev.index_of(k)
    } else {
        None
    }
}

/// A rebuild for the files `keys` must read the file with key `k` afresh: it is among the
/// files, and `prev` holds nothing under its key.
pub open spec fn missed(prev: FileCache, keys: Seq<KeyView>, k: KeyView) -> bool {
    keys.contains(k) && prev.index_of(k) is None
}

/// Whether `v` holds a key equal to `k`.
fn holds_key(v: &Vec<CacheKey>, k: &CacheKey) -> (r: bool)
    ensures
        r == key_views(v@).contains(k@),
{
    let mut i: usize = 0;
    while i < v.len()
        invariant
            i <= v@.len(),
            forall|j: int| 0 <= j < i ==> v@[j]@ != k@,
        decreases v@.len() - i,
    {
        if v[i] == *k {
            assert(key_views(v@)[i as int] == k@);
            return true;
        }
        i = i + 1;
    }
    assert(!key_views(v@).contains(k@)) by {
        if key_views(v@).contains(k@) {
            let j = choose|j: int| 0 <= j < key_views(v@).len() && key_views(v@)[j] == k@;
            assert(v@[j]@ == k@);
        }
    }
    false
}

impl FileCache {
    /// Stores `ix` under `key`, replacing what was stored there.
    pub fn insert(&mut self, key: CacheKey, ix: Index)
        requires
            old(self).wf(),
            ix.wf(),
        ensures
            final(self).wf(),
            final(self).index_of(key@) == Some(ix),
            forall|k: KeyView| k != key@ ==> #[trigger] final(self).index_of(k) == old(
                self,
            ).index_of(k),
    {
        let ghost kv = key@;
        self.map.insert(key, ix);
        assert forall|k: KeyView| #[trigger]
            cache_map_contents(self.map).contains_key(k) implies cache_map_contents(
            self.map,
        )[k].wf() by {
            if k != kv {
                assert(cache_map_contents(old(self).map).contains_key(k));
            }
        }
    }

    /// Carries over from `previous` the index of each file of `keys` whose key it holds, and
    /// names the files that must be read afresh. Entries of `previous` for files not among
    /// `keys` are dropped.
    pub fn reuse(previous: FileCache, keys: &Vec<CacheKey>) -> (r: (FileCache, Vec<CacheKey>))
        requires
            previous.wf(),
        ensures
            r.0.wf(),
            forall|k: KeyView| #[trigger] r.0.index_of(k) == kept(previous, key_views(keys@), k),
            forall|k: KeyView| #[trigger] key_views(r.1@).contains(k) == missed(
                previous,
                key_views(keys@),
                k,
            ),
            key_views(r.1@).no_duplicates(),
    {
        let ghost ks = key_views(keys@);
        let ghost orig = previous;
        let mut prev = previous;
        let mut cache = FileCache::new();
        let mut misses: Vec<CacheKey> = Vec::new();
        let mut i: usize = 0;
        while i < keys.len()
            invariant
                ks == key_views(keys@),
                orig.wf(),
                i <= keys@.len(),
                prev.wf(),
                cache.wf(),
                forall|k: KeyView| #[trigger] cache.index_of(k) == kept(orig, ks.subrange(0, i as int), k),
                forall|k: KeyView| #[trigger] prev.index_of(k) == if ks.subrange(0, i as int).contains(k) {
                    None
                } else {
                    orig.index_of(k)
                },
                forall|k: KeyView| #[trigger] key_views(misses@).contains(k) == missed(
                    orig,
                    ks.subrange(0, i as int),
                    k,
                ),
                key_views(misses@).no_duplicates(),
            decreases keys@.len() - i,
        {
            let ghost seen = ks.subrange(0, i as int);
            let ghost seen2 = ks.subrange(0, i as int + 1);
            let ghost cache0 = cache;
            let ghost prev0 = prev;
            let key = &keys[i];
            assert(ks[i as int] == key@);
            assert forall|k: KeyView| #[trigger] seen2.contains(k) == (seen.contains(k) || k == key@) by {
                if seen2.contains(k) {
                    let j = choose|j: int| 0 <= j < seen2.len() && seen2[j] == k;
                    if j < i {
                        assert(seen[j] == k);
                    }
                }
                if seen.contains(k) {
                    let j = choose|j: int| 0 <= j < seen.len() && seen[j] == k;
                    assert(seen2[j] == k);
                }
                if k == key@ {
                    assert(seen2[i as int] == k);
                }
            }
            let in_cache = cache.map.get(key).is_some();
            let in_misses = holds_key(&misses, key);
            if in_cache || in_misses {
                assert(cache.index_of(key@) is Some || key_views(misses@).contains(key@));
                assert(seen.contains(key@));
            } else {
                assert(cache.index_of(key@) is None);
                assert(!key_views(misses@).contains(key@));
                assert(!seen.contains(key@));
                assert(prev.index_of(key@) == orig.index_of(key@));
                match prev.map.remove(key) {
                    Some(ix) => {
                        assert forall|k: KeyView| #[trigger]
                            cache_map_contents(prev.map).contains_key(k) implies cache_map_contents(
                            prev.map,
                        )[k].wf() by {
                            assert(cache_map_contents(prev0.map).contains_key(k));
                        }
                        cache.insert(key.duplicate(), ix);
                        assert forall|k: KeyView| #[trigger] cache.index_of(k) == kept(orig, seen2, k) by {
                            if k != key@ {
                                assert(cache.index_of(k) == cache0.index_of(k));
                            }
                        }
                        assert forall|k: KeyView| #[trigger] prev.index_of(k) == if seen2.contains(k) {
                            None
                        } else {
                            orig.index_of(k)
                        } by {
                            if k != key@ {
                                assert(prev.index_of(k) == prev0.index_of(k));
                            }
                        }
                    },
                    None => {
                        assert forall|k: KeyView| #[trigger] prev.index_of(k) == if k == key@ {
                            None
                        } else {
                            prev0.index_of(k)
                        } by {
                            if k != key@ {
                                assert(cache_map_contents(prev.map).contains_key(k)
                                    == cache_map_contents(prev0.map).contains_key(k));
                            }
                        }
                        let ghost m = key_views(misses@);
                        misses.push(key.duplicate());
                        assert(key_views(misses@) =~= m.push(key@));
                        assert forall|k: KeyView| #[trigger] key_views(misses@).contains(k) == (
                        m.contains(k) || k == key@) by {
                            if key_views(misses@).contains(k) {
                                let j = choose|j: int|
                                    0 <= j < key_views(misses@).len() && key_views(misses@)[j] == k;
                                if j < m.len() {
                                    assert(m[j] == k);
                                }
                            }
                            if m.contains(k) {
                                let j = choose|j: int| 0 <= j < m.len() && m[j] == k;
                                assert(key_views(misses@)[j] == k);
                            }
                            if k == key@ {
                                assert(key_views(misses@)[m.len() as int] == k);
                            }
                        }
                    },
                }
            }
            assert forall|k: KeyView| #[trigger] cache.index_of(k) == kept(orig, seen2, k) by {
                assert(seen2.contains(k) == (seen.contains(k) || k == key@));
            }
            assert forall|k: KeyView| #[trigger] prev.index_of(k) == if seen2.contains(k) {
                None
            } else {
                orig.index_of(k)
            } by {
                assert(seen2.contains(k) == (seen.contains(k) || k == key@));
            }
            assert forall|k: KeyView| #[trigger] key_views(misses@).contains(k) == missed(
                orig,
                seen2,
                k,
            ) by {
                assert(seen2.contains(k) == (seen.contains(k) || k == key@));
            }
            i = i + 1;
        }
        assert(ks.subrange(0, i as int) =~= ks);
        (cache, misses)
    }
}

impl FileCache {
    /// Indexes `text`, the content of the file with key `key`, and stores the result under that
    /// key. On a tag that is not an annotation the cache is left as it was.
    pub fn add_file(&mut self, indexer: &Indexer, key: CacheKey, text: &str) -> (r: Result<
        (),
        ParseInlineError,
    >)
        requires
            old(self).wf(),
        ensures
            final(self).wf(),
            match r {
                Ok(_) => {
                    &&& crate::index::inlines_of(tags_from(text@, 0)) is Ok
                    &&& final(self).index_of(key@) is Some
                    &&& final(self).index_of(key@)->0.holds(
                        crate::index::inlines_of(tags_from(text@, 0))->Ok_0,
                    )
                    &&& forall|k: KeyView| k != key@ ==> #[trigger] final(self).index_of(k)
                        == old(self).index_of(k)
                },
                Err(e) => {
                    &&& *final(self) == *old(self)
                    &&& crate::index::inlines_of(tags_from(text@, 0)) == Err::<
                        Seq<InlineModel>,
                        crate::parser::ErrorModel,
                    >(e@)
                },
            },
    {
        match indexer.index_path(text) {
            Ok(ix) => {
                self.insert(key, ix);
                Ok(())
            },
            Err(e) => Err(e),
        }
    }

}


/// `c` is what a rebuild of `prev` for the current files `keys` yields: every file that had to
/// be read afresh has an index, every other key keeps what `prev` held for a current file.
pub open spec fn rebuilt_from(prev: FileCache, keys: Seq<KeyView>, c: FileCache) -> bool {
    forall|k: KeyView|
        if missed(prev, keys, k) {
            #[trigger] c.index_of(k) is Some
        } else {
            c.index_of(k) == kept(prev, keys, k)
        }
}

impl FileCache {
    /// Indexes `texts[i]`, the content of the file with key `fresh[i]`, for each `i` in turn,
    /// into this cache. The first text with a tag that is not an annotation fails the whole
    /// rebuild.
    pub fn finish(self, indexer: &Indexer, fresh: &Vec<CacheKey>, texts: &Vec<String>) -> (r:
        Result<FileCache, ParseInlineError>)
        requires
            self.wf(),
            fresh@.len() == texts@.len(),
        ensures
            r is Ok <==> forall|i: int|
                0 <= i < texts@.len() ==> #[trigger] text_inlines(texts@[i]) is Ok,
            match r {
                Ok(c) => {
                    &&& c.wf()
                    &&& forall|k: KeyView| !key_views(fresh@).contains(k) ==> #[trigger] c.index_of(
                        k,
                    ) == self.index_of(k)
                    &&& forall|i: int|
                        0 <= i < fresh@.len() ==> #[trigger] c.index_of(fresh@[i]@) is Some
                    &&& forall|i: int|
                        0 <= i < fresh@.len() && last_of(key_views(fresh@), i) ==> #[trigger] c.index_of(
                            fresh@[i]@,
                        )->0.holds(text_inlines(texts@[i])->Ok_0)
                },
                Err(e) => exists|i: int|
                    0 <= i < texts@.len() && (forall|j: int|
                        0 <= j < i ==> #[trigger] text_inlines(texts@[j]) is Ok)
                        && text_inlines(texts@[i]) == Err::<Seq<InlineModel>, ErrorModel>(e@),
            },
    {
        let mut c = self;
        let ghost start = c;
        let mut i: usize = 0;
        while i < fresh.len()
            invariant
                fresh@.len() == texts@.len(),
                i <= fresh@.len(),
                c.wf(),
                forall|k: KeyView| !key_views(fresh@.subrange(0, i as int)).contains(k) ==> #[trigger] c.index_of(k) == start.index_of(k),
                forall|j: int| 0 <= j < i ==> #[trigger] c.index_of(fresh@[j]@) is Some,
                forall|j: int|
                    0 <= j < i && last_of(key_views(fresh@.subrange(0, i as int)), j) ==> #[trigger] c.index_of(
                        fresh@[j]@,
                    )->0.holds(text_inlines(texts@[j])->Ok_0),
                forall|j: int| 0 <= j < i ==> #[trigger] text_inlines(texts@[j]) is Ok,
            decreases fresh@.len() - i,
        {
            let ghost c0 = c;
            let ghost seen = key_views(fresh@.subrange(0, i as int));
            let ghost seen2 = key_views(fresh@.subrange(0, i as int + 1));
            let ghost ki = fresh@[i as int]@;
            assert(seen2 =~= seen.push(ki));
            assert forall|k: KeyView| #[trigger] seen2.contains(k) == (seen.contains(k) || k == ki) by {
                if seen2.contains(k) {
                    let j = choose|j: int| 0 <= j < seen2.len() && seen2[j] == k;
                    if j < seen.len() {
                        assert(seen[j] == k);
                    }
                }
                if seen.contains(k) {
                    let j = choose|j: int| 0 <= j < seen.len() && seen[j] == k;
                    assert(seen2[j] == k);
                }
                if k == ki {
                    assert(seen2[seen.len() as int] == k);
                }
            }
            match c.add_file(indexer, fresh[i].duplicate(), texts[i].as_str()) {
                Ok(_) => {},
                Err(e) => {
                    assert(text_inlines(texts@[i as int]) == Err::<Seq<InlineModel>, ErrorModel>(e@));
                    return Err(e);
                },
            }
            assert forall|k: KeyView| !seen2.contains(k) implies #[trigger] c.index_of(k)
                == start.index_of(k) by {
                assert(c.index_of(k) == c0.index_of(k));
            }
            assert forall|j: int| 0 <= j < i + 1 implies #[trigger] c.index_of(fresh@[j]@) is Some by {
                if fresh@[j]@ != ki {
                    assert(c.index_of(fresh@[j]@) == c0.index_of(fresh@[j]@));
                }
            }
            assert forall|j: int|
                0 <= j < i + 1 && last_of(seen2, j) implies #[trigger] c.index_of(
                    fresh@[j]@,
                )->0.holds(text_inlines(texts@[j])->Ok_0) by {
                if j < i {
                    assert(seen2[i as int] == ki);
                    assert(seen2[j] == fresh@[j]@);
                    assert(fresh@[j]@ != ki);
                    assert(c.index_of(fresh@[j]@) == c0.index_of(fresh@[j]@));
                    assert forall|m: int| j < m < seen.len() implies seen[m] != seen[j] by {
                        assert(seen[m] == seen2[m]);
                    }
                    assert(last_of(seen, j));
                }
            }
            i = i + 1;
        }
        assert(fresh@.subrange(0, i as int) =~= fresh@);
        Ok(c)
    }
}

/// No later item of `s` equals the one at `i`.
pub open spec fn last_of(s: Seq<KeyView>, i: int) -> bool {
    forall|m: int| i < m < s.len() ==> s[m] != s[i]
}

/// The annotations that the tags of `text` denote.
pub open spec fn text_inlines(text: String) -> Result<Seq<InlineModel>, ErrorModel> {
    crate::index::inlines_of(tags_from(text@, 0))
}

/// Carrying a cache over for the current files and then indexing the files that it names
/// afresh is a rebuild of that cache.
pub proof fn lemma_two_phase_rebuild(
    prev: FileCache,
    keys: Seq<KeyView>,
    carried: FileCache,
    fresh: Seq<KeyView>,
    c: FileCache,
)
    requires
        forall|k: KeyView| #[trigger] carried.index_of(k) == kept(prev, keys, k),
        forall|k: KeyView| #[trigger] fresh.contains(k) == missed(prev, keys, k),
        forall|k: KeyView| !fresh.contains(k) ==> #[trigger] c.index_of(k) == carried.index_of(k),
        forall|k: KeyView| fresh.contains(k) ==> #[trigger] c.index_of(k) is Some,
    ensures
        rebuilt_from(prev, keys, c),
{
    assert forall|k: KeyView| if missed(prev, keys, k) {
        #[trigger] c.index_of(k) is Some
    } else {
        c.index_of(k) == kept(prev, keys, k)
    } by {
        assert(fresh.contains(k) == missed(prev, keys, k));
        if !fresh.contains(k) {
            assert(carried.index_of(k) == kept(prev, keys, k));
        }
    }
}

/// A rebuild holds an entry for exactly the current files.
pub proof fn lemma_rebuild_holds_current(prev: FileCache, keys: Seq<KeyView>, c: FileCache)
    requires
        rebuilt_from(prev, keys, c),
    ensures
        forall|k: KeyView| #[trigger] c.index_of(k) is Some <==> keys.contains(k),
{
    assert forall|k: KeyView| #[trigger] c.index_of(k) is Some <==> keys.contains(k) by {
        if missed(prev, keys, k) {
            assert(c.index_of(k) is Some);
        } else {
            assert(c.index_of(k) == kept(prev, keys, k));
        }
    }
}

/// Rebuilding again with no file changed reads no file afresh and carries every entry over
/// unchanged.
pub proof fn lemma_rebuild_idempotent(prev: FileCache, keys: Seq<KeyView>, c: FileCache)
    requires
        rebuilt_from(prev, keys, c),
    ensures
        forall|k: KeyView| !(#[trigger] missed(c, keys, k)),
        forall|k: KeyView| #[trigger] kept(c, keys, k) == c.index_of(k),
        rebuilt_from(c, keys, c),
{
    lemma_rebuild_holds_current(prev, keys, c);
    assert forall|k: KeyView| !(#[trigger] missed(c, keys, k)) by {
        assert(c.index_of(k) is Some <==> keys.contains(k));
    }
    assert forall|k: KeyView| #[trigger] kept(c, keys, k) == c.index_of(k) by {
        assert(c.index_of(k) is Some <==> keys.contains(k));
    }
    assert forall|k: KeyView| if missed(c, keys, k) {
        #[trigger] c.index_of(k) is Some
    } else {
        c.index_of(k) == kept(c, keys, k)
    } by {
        assert(c.index_of(k) is Some <==> keys.contains(k));
    }
}

/// A file whose modification time alone changed is read afresh, and its entry under the old
/// time is dropped.
pub proof fn lemma_touched_file_reread(
    prev: FileCache,
    keys: Seq<KeyView>,
    path: Seq<char>,
    before: Timestamp,
    after: Timestamp,
)
    requires
        before != after,
        forall|t: Timestamp| #[trigger] prev.index_of((path, t)) is Some ==> t == before,
        keys.contains((path, after)),
        !keys.contains((path, before)),
    ensures
        missed(prev, keys, (path, after)),
        kept(prev, keys, (path, before)) is None,
        forall|c: FileCache| #[trigger] rebuilt_from(prev, keys, c) ==> c.index_of((path, before)) is None,
{
    assert(prev.index_of((path, after)) is None);
    assert forall|c: FileCache| #[trigger] rebuilt_from(prev, keys, c) implies c.index_of(
        (path, before),
    ) is None by {
        assert(!missed(prev, keys, (path, before)));
    }
}

/// A file no longer among the current files has no entry after a rebuild, whatever the cache
/// held before.
pub proof fn lemma_deleted_file_pruned(prev: FileCache, keys: Seq<KeyView>, c: FileCache, k: KeyView)
    requires
        rebuilt_from(prev, keys, c),
        !keys.contains(k),
    ensures
        c.index_of(k) is None,
{
    assert(!missed(prev, keys, k));
}

} // verus!
