use vstd::prelude::*;
use crate::note::{Comment, CommentModel, Inline, InlineModel, TagExtractor, tags_from};
use crate::parser::{inline_of, ErrorModel, InlineParser, ParseInlineError};
use crate::table::{tag_map_contents, term_map_contents, TagMap, TermMap};
use crate::text::views;

verus! {

/// What the comments of `v` hold.
pub open spec fn comment_views(v: Vec<Comment>) -> Seq<CommentModel> {
    v@.map_values(|c: Comment| c@)
}

/// `s`, or nothing where `s` is empty.
pub open spec fn nonempty(s: Seq<CommentModel>) -> Option<Seq<CommentModel>> {
    if s.len() == 0 {
        None
    } else {
        Some(s)
    }
}

/// How often `t` occurs in `tags`.
pub open spec fn count_of(tags: Seq<Seq<char>>, t: Seq<char>) -> nat
    decreases tags.len(),
{
    if tags.len() == 0 {
        0
    } else {
        count_of(tags.drop_last(), t) + if tags.last() == t {
            1nat
        } else {
            0nat
        }
    }
}

/// The comments among `xs` filed under `t`, in order, each once for every time it carries `t`.
pub open spec fn filed_under(xs: Seq<InlineModel>, t: Seq<char>) -> Seq<CommentModel>
    decreases xs.len(),
{
    if xs.len() == 0 {
        Seq::empty()
    } else {
        match xs.last() {
            InlineModel::Comment(c) => filed_under(xs.drop_last(), t) + Seq::new(
                count_of(c.tags, t),
                |i: int| c,
            ),
            InlineModel::Definition { .. } => filed_under(xs.drop_last(), t),
        }
    }
}

/// The last definition of `term` among `xs`.
pub open spec fn defined(xs: Seq<InlineModel>, term: Seq<char>) -> Option<Seq<char>>
    decreases xs.len(),
{
    if xs.len() == 0 {
        None
    } else {
        match xs.last() {
            InlineModel::Definition { term: t, definition: d } => if t == term {
                Some(d)
            } else {
                defined(xs.drop_last(), term)
            },
            InlineModel::Comment(_) => defined(xs.drop_last(), term),
        }
    }
}

/// The annotations that the tags `ts` denote, or the error of the first tag that denotes none.
pub open spec fn inlines_of(ts: Seq<Seq<char>>) -> Result<Seq<InlineModel>, ErrorModel>
    decreases ts.len(),
{
    if ts.len() == 0 {
        Ok(Seq::empty())
    } else {
        match inlines_of(ts.drop_last()) {
            Err(e) => Err(e),
            Ok(xs) => match inline_of(ts.last()) {
                Ok(x) => Ok(xs.push(x)),
                Err(e) => Err(e),
            },
        }
    }
}

/// What one file holds: its comments by tag and its definitions by term.
#[derive(Debug)]
pub struct Index {
    pub comments: TagMap,
    pub definitions: TermMap,
}

impl Index {
    /// No tag without comments.
    pub open spec fn wf(&self) -> bool {
        forall|t: Seq<char>| #[trigger]
            tag_map_contents(self.comments).contains_key(t) ==> tag_map_contents(
                self.comments,
            )[t]@.len() > 0
    }

    /// The comments filed under `tag`.
    pub open spec fn comments_for(&self, tag: Seq<char>) -> Option<Seq<CommentModel>> {
        if tag_map_contents(self.comments).contains_key(tag) {
            Some(comment_views(tag_map_contents(self.comments)[tag]))
        } else {
            None
        }
    }

    /// The definition of `term`.
    pub open spec fn definition_of(&self, term: Seq<char>) -> Option<Seq<char>> {
        if term_map_contents(self.definitions).contains_key(term) {
            Some(term_map_contents(self.definitions)[term]@)
        } else {
            None
        }
    }

    /// This index holds exactly what the annotations `xs` give.
    pub open spec fn holds(&self, xs: Seq<InlineModel>) -> bool {
        &&& self.wf()
        &&& forall|t: Seq<char>| #[trigger] self.comments_for(t) == nonempty(filed_under(xs, t))
        &&& forall|t: Seq<char>| #[trigger] self.definition_of(t) == defined(xs, t)
    }

    /// An index with nothing in it.
    pub fn new() -> (r: Index)
        ensures
            r.holds(Seq::empty()),
    {
        Index { comments: TagMap::new(), definitions: TermMap::new() }
    }

    /// The comments filed under `tag`, in the order in which the file gives them.
    pub fn get_comments(&self, tag: &String) -> (r: Option<&Vec<Comment>>)
        ensures
            match r {
                Some(v) => self.comments_for(tag@) == Some(comment_views(*v)),
                None => self.comments_for(tag@) is None,
            },
    {
        self.comments.get(tag)
    }

    /// The definition of `term`.
    pub fn get_definition(&self, term: &String) -> (r: Option<&String>)
        ensures
            match r {
                Some(d) => self.definition_of(term@) == Some(d@),
                None => self.definition_of(term@) is None,
            },
    {
        self.definitions.get(term)
    }

    /// Every tag that has comments, each once.
    pub fn tags(&self) -> (r: Vec<String>)
        ensures
            views(r@).no_duplicates(),
            forall|t: Seq<char>| #[trigger] views(r@).contains(t) <==> self.comments_for(t) is Some,
    {
        let r = self.comments.keys();
        assert forall|t: Seq<char>| #[trigger] views(r@).contains(t) <==> self.comments_for(t) is Some by {
            assert(views(r@).to_set().contains(t) == views(r@).contains(t));
        }
        r
    }

    /// Every term that has a definition, each once.
    pub fn terms(&self) -> (r: Vec<String>)
        ensures
            views(r@).no_duplicates(),
            forall|t: Seq<char>| #[trigger] views(r@).contains(t) <==> self.definition_of(t) is Some,
    {
        let r = self.definitions.keys();
        assert forall|t: Seq<char>| #[trigger] views(r@).contains(t) <==> self.definition_of(t) is Some by {
            assert(views(r@).to_set().contains(t) == views(r@).contains(t));
        }
        r
    }

    /// Files the comments `list` under `tag`, in place of those filed there before.
    pub fn put_comments(&mut self, tag: String, list: Vec<Comment>)
        ensures
            final(self).definitions == old(self).definitions,
            final(self).comments_for(tag@) == Some(comment_views(list)),
            forall|t: Seq<char>| t != tag@ ==> #[trigger] final(self).comments_for(t)
                == old(self).comments_for(t),
            list@.len() > 0 && old(self).wf() ==> final(self).wf(),
    {
        self.comments.insert(tag, list);
    }
}

impl Index {
    /// Files a copy of `c` under `tag`, after the comments already there.
    fn file_under(&mut self, tag: &String, c: &Comment)
        requires
            old(self).wf(),
        ensures
            final(self).wf(),
            final(self).definitions == old(self).definitions,
            final(self).comments_for(tag@) == Some(
                match old(self).comments_for(tag@) {
                    Some(s) => s,
                    None => Seq::empty(),
                }.push(c@),
            ),
            forall|t: Seq<char>| t != tag@ ==> #[trigger] final(self).comments_for(t)
                == old(self).comments_for(t),
    {
        let mut list = match self.comments.remove(tag) {
            Some(l) => l,
            None => Vec::new(),
        };
        let ghost before = list;
        list.push(c.duplicate());
        assert(comment_views(list) =~= comment_views(before).push(c@));
        self.comments.insert(tag.clone(), list);
        assert forall|t: Seq<char>| t != tag@ implies #[trigger] self.comments_for(t)
            == old(self).comments_for(t) by {
            assert(tag_map_contents(self.comments).contains_key(t) == tag_map_contents(
                old(self).comments,
            ).contains_key(t));
        }
        assert forall|t: Seq<char>| #[trigger]
            tag_map_contents(self.comments).contains_key(t) implies tag_map_contents(
            self.comments,
        )[t]@.len() > 0 by {
            if t != tag@ {
                assert(tag_map_contents(old(self).comments).contains_key(t));
            }
        }
    }

    /// Files a copy of `c` under each of its tags.
    pub fn add_comment(&mut self, c: &Comment)
        requires
            old(self).wf(),
        ensures
            final(self).wf(),
            final(self).definitions == old(self).definitions,
            forall|t: Seq<char>| #[trigger] final(self).comments_for(t) == nonempty(
                match old(self).comments_for(t) {
                    Some(s) => s,
                    None => Seq::empty(),
                } + Seq::new(count_of(c@.tags, t), |i: int| c@),
            ),
    {
        let ghost start = *self;
        let mut j: usize = 0;
        assert forall|t: Seq<char>| #[trigger] self.comments_for(t) == nonempty(
            match start.comments_for(t) {
                Some(s) => s,
                None => Seq::empty(),
            } + Seq::new(count_of(c@.tags.subrange(0, 0), t), |i: int| c@),
        ) by {
            assert(c@.tags.subrange(0, 0) =~= Seq::<Seq<char>>::empty());
            let base = match start.comments_for(t) {
                Some(s) => s,
                None => Seq::empty(),
            };
            assert(base + Seq::new(0, |i: int| c@) =~= base);
        }
        while j < c.tags.len()
            invariant
                start.wf(),
                self.wf(),
                self.definitions == start.definitions,
                j <= c.tags@.len(),
                forall|t: Seq<char>| #[trigger] self.comments_for(t) == nonempty(
                    match start.comments_for(t) {
                        Some(s) => s,
                        None => Seq::empty(),
                    } + Seq::new(count_of(c@.tags.subrange(0, j as int), t), |i: int| c@),
                ),
            decreases c.tags@.len() - j,
        {
            let tag = &c.tags[j];
            let ghost mid = *self;
            self.file_under(tag, c);
            assert forall|t: Seq<char>| #[trigger] self.comments_for(t) == nonempty(
                match start.comments_for(t) {
                    Some(s) => s,
                    None => Seq::empty(),
                } + Seq::new(count_of(c@.tags.subrange(0, j as int + 1), t), |i: int| c@),
            ) by {
                assert(c@.tags.subrange(0, j as int + 1).drop_last() =~= c@.tags.subrange(0, j as int));
                assert(c@.tags.subrange(0, j as int + 1).last() == tag@);
                let base = match start.comments_for(t) {
                    Some(s) => s,
                    None => Seq::empty(),
                };
                let n = count_of(c@.tags.subrange(0, j as int), t);
                if t == tag@ {
                    assert(base + Seq::new(n + 1, |i: int| c@) =~= (base + Seq::new(n, |i: int| c@)).push(c@));
                }
            }
            j = j + 1;
        }
        assert(c@.tags.subrange(0, j as int) =~= c@.tags);
    }
}

impl Index {
    /// Records `definition` for `term`, replacing an earlier definition of it.
    pub fn add_definition(&mut self, term: String, definition: String)
        requires
            old(self).wf(),
        ensures
            final(self).wf(),
            final(self).comments == old(self).comments,
            final(self).definition_of(term@) == Some(definition@),
            forall|t: Seq<char>| t != term@ ==> #[trigger] final(self).definition_of(t)
                == old(self).definition_of(t),
    {
        self.definitions.insert(term, definition);
    }

    /// Adds what the annotation `x` gives.
    pub fn add_inline(&mut self, x: &Inline)
        requires
            old(self).wf(),
        ensures
            forall|xs: Seq<InlineModel>| old(self).holds(xs) ==> final(self).holds(xs.push(x@)),
    {
        match x {
            Inline::Comment(c) => {
                self.add_comment(c);
                assert forall|xs: Seq<InlineModel>| old(self).holds(xs) implies self.holds(
                    xs.push(x@),
                ) by {
                    assert(xs.push(x@).drop_last() =~= xs);
                    assert forall|t: Seq<char>| #[trigger] self.comments_for(t) == nonempty(
                        filed_under(xs.push(x@), t),
                    ) by {
                        let f = filed_under(xs, t);
                        if f.len() == 0 {
                            assert(f + Seq::new(count_of(c@.tags, t), |i: int| c@) =~= Seq::new(
                                count_of(c@.tags, t),
                                |i: int| c@,
                            ));
                        }
                    }
                    assert forall|t: Seq<char>| #[trigger] self.definition_of(t) == defined(
                        xs.push(x@),
                        t,
                    ) by {
                        assert(self.definition_of(t) == old(self).definition_of(t));
                    }
                }
            },
            Inline::Definition(d) => {
                let ghost old_comments = self.comments;
                self.add_definition(d.term.clone(), d.definition.clone());
                assert forall|xs: Seq<InlineModel>| old(self).holds(xs) implies self.holds(
                    xs.push(x@),
                ) by {
                    assert(xs.push(x@).drop_last() =~= xs);
                    assert forall|t: Seq<char>| #[trigger] self.comments_for(t) == nonempty(
                        filed_under(xs.push(x@), t),
                    ) by {
                        assert(self.comments_for(t) == old(self).comments_for(t));
                    }
                }
            },
        }
    }
}

/// Reads the annotations of one file's text into its index.
#[derive(Clone, Debug)]
pub struct Indexer {
    extract: TagExtractor,
    parse: InlineParser,
}

impl Indexer {
    /// An indexer.
    pub fn new() -> (r: Indexer) {
        Indexer { extract: TagExtractor::new(), parse: InlineParser::new() }
    }

    /// The index of a file whose content is `text`: every tag of it, in document order, read
    /// as an annotation. The first tag that is not one fails the whole file.
    pub fn index_path(&self, text: &str) -> (r: Result<Index, ParseInlineError>)
        ensures
            match r {
                Ok(ix) => inlines_of(tags_from(text@, 0)) is Ok && ix.holds(
                    inlines_of(tags_from(text@, 0))->Ok_0,
                ),
                Err(e) => inlines_of(tags_from(text@, 0)) == Err::<Seq<InlineModel>, ErrorModel>(e@),
            },
    {
        let tags = self.extract.tags(text);
        let ghost ts = tags_from(text@, 0);
        let mut ix = Index::new();
        let ghost xs: Seq<InlineModel> = Seq::empty();
        let mut i: usize = 0;
        while i < tags.len()
            invariant
                ts == tags_from(text@, 0),
                crate::text::views(tags@) == ts,
                i <= tags@.len(),
                inlines_of(ts.subrange(0, i as int)) == Ok::<_, ErrorModel>(xs),
                ix.holds(xs),
            decreases tags@.len() - i,
        {
            assert(ts.subrange(0, i as int + 1).drop_last() =~= ts.subrange(0, i as int));
            assert(ts[i as int] == tags@[i as int]@);
            match self.parse.parse(tags[i].as_str()) {
                Ok(x) => {
                    ix.add_inline(&x);
                    proof {
                        xs = xs.push(x@);
                    }
                },
                Err(e) => {
                    proof {
                        assert(inlines_of(ts.subrange(0, i as int + 1)) == Err::<
                            Seq<InlineModel>,
                            ErrorModel,
                        >(e@));
                        lemma_inlines_err_extends(ts, i as int + 1);
                    }
                    return Err(e);
                },
            }
            i = i + 1;
        }
        assert(ts.subrange(0, i as int) =~= ts);
        Ok(ix)
    }
}

/// An error among the first `n` tags is the error of them all.
pub proof fn lemma_inlines_err_extends(ts: Seq<Seq<char>>, n: int)
    requires
        0 <= n <= ts.len(),
        inlines_of(ts.subrange(0, n)) is Err,
    ensures
        inlines_of(ts) == inlines_of(ts.subrange(0, n)),
    decreases ts.len() - n,
{
    if n < ts.len() {
        assert(ts.subrange(0, n + 1).drop_last() =~= ts.subrange(0, n));
        lemma_inlines_err_extends(ts, n + 1);
    } else {
        assert(ts.subrange(0, n) =~= ts);
    }
}

impl Index {
    /// Whether this index keeps its invariant: no tag without comments.
    pub fn is_wf(&self) -> (r: bool)
        ensures
            r == self.wf(),
    {
        let tags = self.comments.keys();
        let mut i: usize = 0;
        while i < tags.len()
            invariant
                views(tags@).to_set() == tag_map_contents(self.comments).dom(),
                i <= tags@.len(),
                forall|a: int|
                    0 <= a < i ==> tag_map_contents(self.comments)[#[trigger] tags@[a]@]@.len() > 0,
            decreases tags@.len() - i,
        {
            assert(views(tags@).to_set().contains(views(tags@)[i as int]));
            match self.comments.get(&tags[i]) {
                Some(list) => {
                    if list.len() == 0 {
                        return false;
                    }
                },
                None => {},
            }
            i = i + 1;
        }
        assert forall|t: Seq<char>| #[trigger]
            tag_map_contents(self.comments).contains_key(t) implies tag_map_contents(
            self.comments,
        )[t]@.len() > 0 by {
            assert(views(tags@).to_set().contains(t));
            let a = choose|a: int| 0 <= a < views(tags@).len() && views(tags@)[a] == t;
            assert(tags@[a]@ == t);
        }
        true
    }
}

} // verus!
