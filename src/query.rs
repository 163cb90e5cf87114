use vstd::prelude::*;
use crate::cache::{key_views, not_later, CacheKey, FileCache, KeyView, Timestamp};
use crate::index::{comment_views, Index};
use crate::note::{Comment, CommentModel};

verus! {

/// `a` sorts before `b`, character by character, as `str` orders.
pub open spec fn path_before(a: Seq<char>, b: Seq<char>) -> bool
    decreases a.len(),
{
    if a.len() == 0 {
        b.len() > 0
    } else if b.len() == 0 {
        false
    } else if a[0] != b[0] {
        (a[0] as u32) < (b[0] as u32)
    } else {
        path_before(a.drop_first(), b.drop_first())
    }
}

/// The file with key `k` is one whose definition of `term` a lookup may return: it defines
/// the term, and no other file that defines it has a path that sorts before its own.
pub open spec fn chosen_definer(c: FileCache, term: Seq<char>, k: KeyView) -> bool {
    &&& c.index_of(k) is Some
    &&& c.index_of(k)->0.definition_of(term) is Some
    &&& forall|k2: KeyView|
        #[trigger] c.index_of(k2) is Some && c.index_of(k2)->0.definition_of(term) is Some
            ==> !path_before(k2.0, k.0)
}

/// `ks` names every file of `c`, each once.
pub open spec fn lists_all(c: FileCache, ks: Seq<CacheKey>) -> bool {
    &&& key_views(ks).no_duplicates()
    &&& forall|k: KeyView| #[trigger] key_views(ks).contains(k) <==> c.index_of(k) is Some
}

/// The entries of `c` in the order of `ks`.
pub open spec fn listing(c: FileCache, ks: Seq<CacheKey>) -> Seq<(CacheKey, Index)> {
    ks.map_values(|k: CacheKey| (k, c.index_of(k@)->0))
}

/// No path sorts before itself.
pub proof fn lemma_path_before_irreflexive(a: Seq<char>)
    ensures
        !path_before(a, a),
    decreases a.len(),
{
    if a.len() > 0 {
        lemma_path_before_irreflexive(a.drop_first());
    }
}

/// Sorting before is transitive.
pub proof fn lemma_path_before_transitive(a: Seq<char>, b: Seq<char>, c: Seq<char>)
    requires
        path_before(a, b),
        path_before(b, c),
    ensures
        path_before(a, c),
    decreases a.len(),
{
    if a.len() > 0 && b.len() > 0 && c.len() > 0 && a[0] == b[0] && b[0] == c[0] {
        lemma_path_before_transitive(a.drop_first(), b.drop_first(), c.drop_first());
    }
}

/// Whether the path `a` sorts before the path `b`.
fn sorts_before(a: &String, b: &String) -> (r: bool)
    ensures
        r == path_before(a@, b@),
{
    let x = crate::text::chars_of(a.as_str());
    let y = crate::text::chars_of(b.as_str());
    let mut k: usize = 0;
    assert(x@.subrange(0, x@.len() as int) =~= x@);
    assert(y@.subrange(0, y@.len() as int) =~= y@);
    while k < x.len() && k < y.len() && x[k] == y[k]
        invariant
            x@ == a@,
            y@ == b@,
            k <= x@.len(),
            k <= y@.len(),
            path_before(a@, b@) == path_before(
                x@.subrange(k as int, x@.len() as int),
                y@.subrange(k as int, y@.len() as int),
            ),
        decreases x@.len() - k,
    {
        assert(x@.subrange(k as int, x@.len() as int).drop_first() =~= x@.subrange(
            k as int + 1,
            x@.len() as int,
        ));
        assert(y@.subrange(k as int, y@.len() as int).drop_first() =~= y@.subrange(
            k as int + 1,
            y@.len() as int,
        ));
        k = k + 1;
    }
    if k == x.len() {
        k < y.len()
    } else if k == y.len() {
        false
    } else {
        assert(x@.subrange(k as int, x@.len() as int)[0] == x@[k as int]);
        assert(y@.subrange(k as int, y@.len() as int)[0] == y@[k as int]);
        (x[k] as u32) < (y[k] as u32)
    }
}

/// The modification time and position of each entry of `v` whose index files comments under
/// `tag`, in entry order.
pub open spec fn tagged(v: Seq<(CacheKey, Index)>, tag: Seq<char>) -> Seq<(Timestamp, int)>
    decreases v.len(),
{
    if v.len() == 0 {
        Seq::empty()
    } else if v.last().1.comments_for(tag) is Some {
        tagged(v.drop_last(), tag).push((v.last().0.modified, v.len() - 1))
    } else {
        tagged(v.drop_last(), tag)
    }
}

/// The first position of `s` whose time is later than `t`, or the length of `s`.
pub open spec fn first_later(s: Seq<(Timestamp, int)>, t: Timestamp) -> int
    decreases s.len(),
{
    if s.len() == 0 || !not_later(s[0].0, t) {
        0
    } else {
        1 + first_later(s.drop_first(), t)
    }
}

/// `s` ordered by time, earliest first; items with equal times keep their order.
pub open spec fn by_time(s: Seq<(Timestamp, int)>) -> Seq<(Timestamp, int)>
    decreases s.len(),
{
    if s.len() == 0 {
        Seq::empty()
    } else {
        let r = by_time(s.drop_last());
        r.insert(first_later(r, s.last().0), s.last())
    }
}

/// The sequences of `ss`, one after another.
pub open spec fn concat_all(ss: Seq<Seq<CommentModel>>) -> Seq<CommentModel>
    decreases ss.len(),
{
    if ss.len() == 0 {
        Seq::empty()
    } else {
        concat_all(ss.drop_last()) + ss.last()
    }
}

/// The comments filed under `tag` across the entries `v`: entry by entry, earliest modified
/// first, each entry's comments in their own order.
pub open spec fn search_result(v: Seq<(CacheKey, Index)>, tag: Seq<char>) -> Seq<CommentModel> {
    concat_all(
        by_time(tagged(v, tag)).map_values(
            |p: (Timestamp, int)| v[p.1].1.comments_for(tag)->0,
        ),
    )
}

/// Times and positions, with positions as integers.
pub open spec fn pos_views(v: Seq<(Timestamp, usize)>) -> Seq<(Timestamp, int)> {
    v.map_values(|p: (Timestamp, usize)| (p.0, p.1 as int))
}

/// `first_later` is a position of `s` or its length.
pub proof fn lemma_first_later_bounds(s: Seq<(Timestamp, int)>, t: Timestamp)
    ensures
        0 <= first_later(s, t) <= s.len(),
    decreases s.len(),
{
    if s.len() > 0 && not_later(s[0].0, t) {
        lemma_first_later_bounds(s.drop_first(), t);
    }
}

/// Every item of `by_time(s)` is an item of `s`.
pub proof fn lemma_by_time_items(s: Seq<(Timestamp, int)>)
    ensures
        by_time(s).len() == s.len(),
        forall|i: int| 0 <= i < by_time(s).len() ==> s.contains(#[trigger] by_time(s)[i]),
    decreases s.len(),
{
    if s.len() > 0 {
        let r = by_time(s.drop_last());
        lemma_by_time_items(s.drop_last());
        let p = first_later(r, s.last().0);
        lemma_first_later_bounds(r, s.last().0);
        assert forall|i: int| 0 <= i < by_time(s).len() implies s.contains(
            #[trigger] by_time(s)[i],
        ) by {
            let x = by_time(s)[i];
            if i == p {
                assert(s[s.len() - 1] == x);
            } else {
                let j = if i < p { i } else { i - 1 };
                assert(x == r[j]);
                let k = choose|k: int| 0 <= k < s.drop_last().len() && s.drop_last()[k] == x;
                assert(s[k] == x);
            }
        }
    }
}

/// Every item of `tagged(v, tag)` names an entry of `v` that files comments under `tag`.
pub proof fn lemma_tagged_items(v: Seq<(CacheKey, Index)>, tag: Seq<char>)
    ensures
        forall|i: int| 0 <= i < tagged(v, tag).len() ==> 0 <= (#[trigger] tagged(v, tag)[i]).1 < v.len()
            && v[tagged(v, tag)[i].1].1.comments_for(tag) is Some,
    decreases v.len(),
{
    if v.len() > 0 {
        lemma_tagged_items(v.drop_last(), tag);
        assert forall|i: int| 0 <= i < tagged(v, tag).len() implies 0 <= (
        #[trigger] tagged(v, tag)[i]).1 < v.len() && v[tagged(v, tag)[i].1].1.comments_for(tag) is Some by {
            if i < tagged(v.drop_last(), tag).len() {
                assert(tagged(v, tag)[i] == tagged(v.drop_last(), tag)[i]);
                assert(v[tagged(v, tag)[i].1] == v.drop_last()[tagged(v, tag)[i].1]);
            }
        }
    }
}

fn first_later_in(s: &Vec<(Timestamp, usize)>, t: &Timestamp) -> (r: usize)
    ensures
        r == first_later(pos_views(s@), *t),
{
    let mut j: usize = 0;
    assert(pos_views(s@).subrange(0, s@.len() as int) =~= pos_views(s@));
    while j < s.len() && s[j].0.not_later_than(t)
        invariant
            j <= s@.len(),
            first_later(pos_views(s@), *t) == j + first_later(
                pos_views(s@).subrange(j as int, s@.len() as int),
                *t,
            ),
        decreases s@.len() - j,
    {
        let ghost rest = pos_views(s@).subrange(j as int, s@.len() as int);
        assert(rest.drop_first() =~= pos_views(s@).subrange(j as int + 1, s@.len() as int));
        assert(rest[0] == pos_views(s@)[j as int]);
        j = j + 1;
    }
    if j < s.len() {
        assert(pos_views(s@).subrange(j as int, s@.len() as int)[0] == pos_views(s@)[j as int]);
    }
    j
}

impl FileCache {
    /// The definition of `term`. Where several files define it, one whose path sorts first
    /// gives it.
    pub fn define(&self, term: &String) -> (r: Option<&String>)
        ensures
            match r {
                Some(d) => exists|k: KeyView|
                    chosen_definer(*self, term@, k) && self.index_of(k)->0.definition_of(term@)
                        == Some(d@),
                None => forall|k: KeyView|
                    #[trigger] self.index_of(k) is Some ==> self.index_of(k)->0.definition_of(
                        term@,
                    ) is None,
            },
    {
        let keys = self.keys();
        let ghost ks = key_views(keys@);
        let mut best: Option<(usize, &String)> = None;
        let mut i: usize = 0;
        while i < keys.len()
            invariant
                ks == key_views(keys@),
                forall|k: KeyView| #[trigger] ks.contains(k) <==> self.index_of(k) is Some,
                i <= keys@.len(),
                match best {
                    None => forall|j: int|
                        0 <= j < i ==> self.index_of(#[trigger] ks[j])->0.definition_of(term@)
                            is None,
                    Some((b, d)) => {
                        &&& b < i
                        &&& self.index_of(ks[b as int]) is Some
                        &&& self.index_of(ks[b as int])->0.definition_of(term@) == Some(d@)
                        &&& forall|j: int|
                            0 <= j < i && self.index_of(#[trigger] ks[j])->0.definition_of(term@)
                                is Some ==> !path_before(ks[j].0, ks[b as int].0)
                    },
                },
            decreases keys@.len() - i,
        {
            assert(ks.contains(ks[i as int]));
            if let Some(ix) = self.get(&keys[i]) {
                match ix.get_definition(term) {
                    Some(d) => {
                        match best {
                            None => {
                                proof {
                                    lemma_path_before_irreflexive(ks[i as int].0);
                                }
                                best = Some((i, d));
                            },
                            Some((b, _)) => {
                                if sorts_before(&keys[i].path, &keys[b].path) {
                                    proof {
                                        let pi = ks[i as int].0;
                                        let pb = ks[b as int].0;
                                        lemma_path_before_irreflexive(pi);
                                        assert forall|j: int|
                                            0 <= j < i + 1 && self.index_of(
                                                #[trigger] ks[j],
                                            )->0.definition_of(term@) is Some implies !path_before(
                                            ks[j].0,
                                            pi,
                                        ) by {
                                            if j == i {
                                            } else if path_before(ks[j].0, pi) {
                                                lemma_path_before_transitive(ks[j].0, pi, pb);
                                            }
                                        }
                                    }
                                    best = Some((i, d));
                                }
                            },
                        }
                    },
                    None => {},
                }
            }
            i = i + 1;
        }
        match best {
            Some((b, d)) => {
                proof {
                    let kb = ks[b as int];
                    assert forall|k2: KeyView|
                        #[trigger] self.index_of(k2) is Some && self.index_of(
                            k2,
                        )->0.definition_of(term@) is Some implies !path_before(k2.0, kb.0) by {
                        assert(ks.contains(k2));
                        let j = choose|j: int| 0 <= j < ks.len() && ks[j] == k2;
                    }
                    assert(chosen_definer(*self, term@, kb));
                }
                Some(d)
            },
            None => {
                proof {
                    assert forall|k: KeyView|
                        #[trigger] self.index_of(k) is Some implies self.index_of(
                            k,
                        )->0.definition_of(term@) is None by {
                        assert(ks.contains(k));
                        let j = choose|j: int| 0 <= j < ks.len() && ks[j] == k;
                    }
                }
                None
            },
        }
    }
}

impl FileCache {
    /// The comments filed under `tag` across all files: file by file, earliest modified first
    /// (files modified at the same time in the map's own order), each file's comments in the
    /// order in which the file gives them.
    pub fn search(&self, tag: &String) -> (r: Vec<Comment>)
        ensures
            exists|ks: Seq<CacheKey>|
                lists_all(*self, ks) && comment_views(r) == search_result(listing(*self, ks), tag@),
    {
        let keys = self.keys();
        let n = keys.len();
        let ghost v = listing(*self, keys@);
        // The files that hold the tag, in the order of the listing.
        let mut sel: Vec<(Timestamp, usize)> = Vec::new();
        let mut i: usize = 0;
        while i < n
            invariant
                v == listing(*self, keys@),
                forall|k: KeyView| #[trigger] key_views(keys@).contains(k) <==> self.index_of(k) is Some,
                n == keys@.len() == v.len(),
                i <= n,
                pos_views(sel@) == tagged(v.subrange(0, i as int), tag@),
            decreases n - i,
        {
            assert(v.subrange(0, i as int + 1).drop_last() =~= v.subrange(0, i as int));
            assert(key_views(keys@).contains(key_views(keys@)[i as int]));
            let ghost before = pos_views(sel@);
            if let Some(ix) = self.get(&keys[i]) {
                if ix.get_comments(tag).is_some() {
                    sel.push((keys[i].modified, i));
                    assert(pos_views(sel@) =~= before.push((v[i as int].0.modified, i as int)));
                }
            }
            i = i + 1;
        }
        assert(v.subrange(0, n as int) =~= v);
        // The same files ordered by modification time.
        let mut sorted: Vec<(Timestamp, usize)> = Vec::new();
        let mut j: usize = 0;
        while j < sel.len()
            invariant
                j <= sel@.len(),
                pos_views(sorted@) == by_time(pos_views(sel@).subrange(0, j as int)),
            decreases sel@.len() - j,
        {
            let ghost s2 = pos_views(sel@).subrange(0, j as int + 1);
            assert(s2.drop_last() =~= pos_views(sel@).subrange(0, j as int));
            let item = sel[j];
            let p = first_later_in(&sorted, &item.0);
            proof {
                lemma_first_later_bounds(pos_views(sorted@), item.0);
            }
            let ghost before = pos_views(sorted@);
            sorted.insert(p, item);
            assert(pos_views(sorted@) =~= before.insert(p as int, (item.0, item.1 as int)));
            j = j + 1;
        }
        assert(pos_views(sel@).subrange(0, j as int) =~= pos_views(sel@));
        let ghost order = by_time(tagged(v, tag@));
        let ghost lists = order.map_values(|p: (Timestamp, int)| v[p.1].1.comments_for(tag@)->0);
        proof {
            lemma_by_time_items(tagged(v, tag@));
            lemma_tagged_items(v, tag@);
        }
        // Their comments, file after file.
        let mut out: Vec<Comment> = Vec::new();
        let mut k: usize = 0;
        while k < sorted.len()
            invariant
                v == listing(*self, keys@),
                forall|k: KeyView| #[trigger] key_views(keys@).contains(k) <==> self.index_of(k) is Some,
                n == keys@.len() == v.len(),
                pos_views(sorted@) == order,
                order.len() == tagged(v, tag@).len(),
                forall|i: int|
                    0 <= i < order.len() ==> tagged(v, tag@).contains(#[trigger] order[i]),
                forall|i: int|
                    0 <= i < tagged(v, tag@).len() ==> 0 <= (#[trigger] tagged(v, tag@)[i]).1
                        < v.len() && v[tagged(v, tag@)[i].1].1.comments_for(tag@) is Some,
                lists == order.map_values(|p: (Timestamp, int)| v[p.1].1.comments_for(tag@)->0),
                k <= sorted@.len(),
                comment_views(out) == concat_all(lists.subrange(0, k as int)),
            decreases sorted@.len() - k,
        {
            let idx = sorted[k].1;
            assert(order[k as int] == (sorted@[k as int].0, idx as int));
            assert(tagged(v, tag@).contains(order[k as int]));
            proof {
                let w = choose|w: int|
                    0 <= w < tagged(v, tag@).len() && tagged(v, tag@)[w] == order[k as int];
                assert(0 <= tagged(v, tag@)[w].1 < v.len());
                assert(key_views(keys@).contains(key_views(keys@)[idx as int]));
            }
            let entry = self.get(&keys[idx]);
            if let Some(list) = match entry {
                Some(ix) => ix.get_comments(tag),
                None => None,
            } {
                assert(lists[k as int] == comment_views(*list));
                let ghost done = comment_views(out);
                let mut m: usize = 0;
                while m < list.len()
                    invariant
                        m <= list@.len(),
                        comment_views(out) == done + comment_views(*list).subrange(0, m as int),
                    decreases list@.len() - m,
                {
                    let ghost before = comment_views(out);
                    out.push(list[m].duplicate());
                    assert(comment_views(out) =~= before.push(list@[m as int]@));
                    assert(comment_views(*list).subrange(0, m as int + 1) =~= comment_views(
                        *list,
                    ).subrange(0, m as int).push(list@[m as int]@));
                    m = m + 1;
                }
                assert(comment_views(*list).subrange(0, m as int) =~= comment_views(*list));
            }
            assert(lists.subrange(0, k as int + 1).drop_last() =~= lists.subrange(0, k as int));
            k = k + 1;
        }
        assert(lists.subrange(0, k as int) =~= lists);
        assert(lists_all(*self, keys@));
        out
    }
}

/// Items before `first_later(s, t)` are not later than `t`; the item there is later.
pub proof fn lemma_first_later_split(s: Seq<(Timestamp, int)>, t: Timestamp)
    ensures
        forall|i: int| 0 <= i < first_later(s, t) ==> not_later(#[trigger] s[i].0, t),
        first_later(s, t) < s.len() ==> !not_later(s[first_later(s, t)].0, t),
    decreases s.len(),
{
    lemma_first_later_bounds(s, t);
    if s.len() > 0 && not_later(s[0].0, t) {
        lemma_first_later_split(s.drop_first(), t);
        assert forall|i: int| 0 <= i < first_later(s, t) implies not_later(#[trigger] s[i].0, t) by {
            if i > 0 {
                assert(s[i] == s.drop_first()[i - 1]);
            }
        }
        lemma_first_later_bounds(s.drop_first(), t);
        let f = first_later(s.drop_first(), t);
        if f < s.drop_first().len() {
            assert(s[f + 1] == s.drop_first()[f]);
        }
    }
}

/// The files that a search visits are in order of modification time, earliest first.
pub proof fn lemma_by_time_sorted(s: Seq<(Timestamp, int)>)
    ensures
        forall|i: int, j: int|
            0 <= i < j < by_time(s).len() ==> not_later(#[trigger] by_time(s)[i].0, #[trigger] by_time(s)[j].0),
    decreases s.len(),
{
    if s.len() > 0 {
        let r = by_time(s.drop_last());
        let x = s.last();
        let p = first_later(r, x.0);
        lemma_by_time_sorted(s.drop_last());
        lemma_first_later_bounds(r, x.0);
        lemma_first_later_split(r, x.0);
        let q = r.insert(p, x);
        assert(by_time(s) == q);
        assert forall|i: int, j: int| 0 <= i < j < q.len() implies not_later(
            #[trigger] q[i].0,
            #[trigger] q[j].0,
        ) by {
            if i == p {
                let j2 = j - 1;
                assert(q[j] == r[j2]);
                assert(!not_later(r[p].0, x.0));
                if j2 > p {
                    assert(not_later(r[p].0, r[j2].0));
                }
            } else if j == p {
                assert(q[i] == r[i]);
            } else {
                let i2 = if i < p { i } else { i - 1 };
                let j2 = if j < p { j } else { j - 1 };
                assert(q[i] == r[i2]);
                assert(q[j] == r[j2]);
            }
        }
    }
}

} // verus!
