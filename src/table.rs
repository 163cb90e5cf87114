use vstd::prelude::*;
use crate::cache::{key_views, CacheKey, KeyView};
use crate::index::Index;
use crate::note::Comment;
use crate::text::views;

verus! {

/// The comments of one file by tag, kept in a hashbrown map.
#[verifier::external_body]
#[derive(Debug)]
pub struct TagMap {
    m: hashbrown::HashMap<String, Vec<Comment>>,
}

/// What a `TagMap` holds, by the characters of each tag.
pub uninterp spec fn tag_map_contents(m: TagMap) -> TagContents;

/// Comment lists by tag.
pub type TagContents = Map<Seq<char>, Vec<Comment>>;

/// The definitions of one file by term, kept in a hashbrown map.
#[verifier::external_body]
#[derive(Debug)]
pub struct TermMap {
    m: hashbrown::HashMap<String, String>,
}

/// What a `TermMap` holds, by the characters of each term.
pub uninterp spec fn term_map_contents(m: TermMap) -> TermContents;

/// Definitions by term.
pub type TermContents = Map<Seq<char>, String>;

/// The index of each file by its key, kept in a hashbrown map.
#[verifier::external_body]
#[derive(Debug)]
pub struct CacheMap {
    m: hashbrown::HashMap<CacheKey, Index>,
}

/// What a `CacheMap` holds, by the view of each key.
pub uninterp spec fn cache_map_contents(m: CacheMap) -> CacheContents;

/// Indexes by file key.
pub type CacheContents = Map<KeyView, Index>;

impl TagMap {
    /// Relies on hashbrown's `HashMap::new`: a map with no entry.
    #[verifier::external_body]
    pub(crate) fn new() -> (r: TagMap)
        ensures
            tag_map_contents(r) == TagContents::empty(),
    {
        TagMap { m: hashbrown::HashMap::new() }
    }

    /// Relies on hashbrown's `HashMap::get`: the value stored under the key equal to `k`
    /// (`String` equality compares the characters).
    #[verifier::external_body]
    pub(crate) fn get(&self, k: &String) -> (r: Option<&Vec<Comment>>)
        ensures
            match r {
                Some(v) => tag_map_contents(*self).contains_key(k@) && *v == tag_map_contents(
                    *self,
                )[k@],
                None => !tag_map_contents(*self).contains_key(k@),
            },
    {
        self.m.get(k)
    }

    /// Relies on hashbrown's `HashMap::insert`: `v` is stored under `k`, in place of what was
    /// stored there.
    #[verifier::external_body]
    pub(crate) fn insert(&mut self, k: String, v: Vec<Comment>)
        ensures
            tag_map_contents(*final(self)) == tag_map_contents(*old(self)).insert(k@, v),
    {
        self.m.insert(k, v);
    }

    /// Relies on hashbrown's `HashMap::remove`: the value stored under `k` leaves the map and
    /// is returned.
    #[verifier::external_body]
    pub(crate) fn remove(&mut self, k: &String) -> (r: Option<Vec<Comment>>)
        ensures
            tag_map_contents(*final(self)) == tag_map_contents(*old(self)).remove(k@),
            r == if tag_map_contents(*old(self)).contains_key(k@) {
                Some(tag_map_contents(*old(self))[k@])
            } else {
                None
            },
    {
        self.m.remove(k)
    }

    /// Relies on hashbrown's `HashMap::keys`: every key once, in the map's own order.
    #[verifier::external_body]
    pub(crate) fn keys(&self) -> (r: Vec<String>)
        ensures
            views(r@).no_duplicates(),
            views(r@).to_set() == tag_map_contents(*self).dom(),
    {
        self.m.keys().cloned().collect()
    }
}

impl TermMap {
    /// Relies on hashbrown's `HashMap::new`: a map with no entry.
    #[verifier::external_body]
    pub(crate) fn new() -> (r: TermMap)
        ensures
            term_map_contents(r) == TermContents::empty(),
    {
        TermMap { m: hashbrown::HashMap::new() }
    }

    /// Relies on hashbrown's `HashMap::get`: the value stored under the key equal to `k`.
    #[verifier::external_body]
    pub(crate) fn get(&self, k: &String) -> (r: Option<&String>)
        ensures
            match r {
                Some(v) => term_map_contents(*self).contains_key(k@) && *v == term_map_contents(
                    *self,
                )[k@],
                None => !term_map_contents(*self).contains_key(k@),
            },
    {
        self.m.get(k)
    }

    /// Relies on hashbrown's `HashMap::insert`: `v` is stored under `k`, in place of what was
    /// stored there.
    #[verifier::external_body]
    pub(crate) fn insert(&mut self, k: String, v: String)
        ensures
            term_map_contents(*final(self)) == term_map_contents(*old(self)).insert(k@, v),
    {
        self.m.insert(k, v);
    }

    /// Relies on hashbrown's `HashMap::keys`: every key once, in the map's own order.
    #[verifier::external_body]
    pub(crate) fn keys(&self) -> (r: Vec<String>)
        ensures
            views(r@).no_duplicates(),
            views(r@).to_set() == term_map_contents(*self).dom(),
    {
        self.m.keys().cloned().collect()
    }
}

impl CacheMap {
    /// Relies on hashbrown's `HashMap::new`: a map with no entry.
    #[verifier::external_body]
    pub(crate) fn new() -> (r: CacheMap)
        ensures
            cache_map_contents(r) == CacheContents::empty(),
    {
        CacheMap { m: hashbrown::HashMap::new() }
    }

    /// Relies on hashbrown's `HashMap::get`: the value stored under the key equal to `k`
    /// (`CacheKey` equality compares path and time, the fields that its `Hash` hashes).
    #[verifier::external_body]
    pub(crate) fn get(&self, k: &CacheKey) -> (r: Option<&Index>)
        ensures
            match r {
                Some(v) => cache_map_contents(*self).contains_key(k@) && *v
                    == cache_map_contents(*self)[k@],
                None => !cache_map_contents(*self).contains_key(k@),
            },
    {
        self.m.get(k)
    }

    /// Relies on hashbrown's `HashMap::insert`: `v` is stored under `k`, in place of what was
    /// stored there.
    #[verifier::external_body]
    pub(crate) fn insert(&mut self, k: CacheKey, v: Index)
        ensures
            cache_map_contents(*final(self)) == cache_map_contents(*old(self)).insert(k@, v),
    {
        self.m.insert(k, v);
    }

    /// Relies on hashbrown's `HashMap::remove`: the value stored under `k` leaves the map and
    /// is returned.
    #[verifier::external_body]
    pub(crate) fn remove(&mut self, k: &CacheKey) -> (r: Option<Index>)
        ensures
            cache_map_contents(*final(self)) == cache_map_contents(*old(self)).remove(k@),
            r == if cache_map_contents(*old(self)).contains_key(k@) {
                Some(cache_map_contents(*old(self))[k@])
            } else {
                None
            },
    {
        self.m.remove(k)
    }

    /// Relies on hashbrown's `HashMap::keys`: every key once, in the map's own order.
    #[verifier::external_body]
    pub(crate) fn keys(&self) -> (r: Vec<CacheKey>)
        ensures
            key_views(r@).no_duplicates(),
            key_views(r@).to_set() == cache_map_contents(*self).dom(),
    {
        self.m.keys().cloned().collect()
    }
}

} // verus!
