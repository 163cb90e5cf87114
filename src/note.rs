use vstd::prelude::*;
use crate::text::{chars_of, find_char, find_from, lemma_find_from_bounds, substring, views};

verus! {

/// A comment annotation: the tags it is filed under, an optional heading and its body.
#[derive(Clone, Debug)]
pub struct Comment {
    pub tags: Vec<String>,
    pub heading: Option<String>,
    pub comment: String,
}

/// A term definition annotation.
#[derive(Clone, Debug)]
pub struct Definition {
    pub term: String,
    pub definition: String,
}

/// One annotation parsed from one tag.
#[derive(Clone, Debug)]
pub enum Inline {
    Comment(Box<Comment>),
    Definition(Box<Definition>),
}

/// What a comment holds, as character sequences.
pub struct CommentModel {
    pub tags: Seq<Seq<char>>,
    pub heading: Option<Seq<char>>,
    pub comment: Seq<char>,
}

/// What an annotation holds, as character sequences.
pub enum InlineModel {
    Comment(CommentModel),
    Definition { term: Seq<char>, definition: Seq<char> },
}

/// What an optional string holds.
pub open spec fn opt_view(o: Option<String>) -> Option<Seq<char>> {
    match o {
        Some(s) => Some(s@),
        None => None,
    }
}

impl View for Comment {
    type V = CommentModel;

    open spec fn view(&self) -> CommentModel {
        CommentModel { tags: views(self.tags@), heading: opt_view(self.heading), comment: self.comment@ }
    }
}

impl View for Inline {
    type V = InlineModel;

    open spec fn view(&self) -> InlineModel {
        match self {
            Inline::Comment(c) => InlineModel::Comment(c@),
            Inline::Definition(d) => InlineModel::Definition {
                term: d.term@,
                definition: d.definition@,
            },
        }
    }
}

/// A copy of `v`, string by string.
pub fn copy_strings(v: &Vec<String>) -> (r: Vec<String>)
    ensures
        views(r@) == views(v@),
{
    let mut r: Vec<String> = Vec::new();
    let mut i: usize = 0;
    while i < v.len()
        invariant
            i <= v@.len(),
            r@.len() == i,
            forall|k: int| 0 <= k < i ==> r@[k]@ == v@[k]@,
        decreases v@.len() - i,
    {
        r.push(v[i].clone());
        i = i + 1;
    }
    assert(views(r@) =~= views(v@));
    r
}

impl Comment {
    /// A copy of this comment, with the same content.
    pub fn duplicate(&self) -> (r: Comment)
        ensures
            r@ == self@,
    {
        let heading = match &self.heading {
            Some(h) => Some(h.clone()),
            None => None,
        };
        Comment { tags: copy_strings(&self.tags), heading, comment: self.comment.clone() }
    }
}

/// `s` holds the opening marker `<note` at position `p`.
pub open spec fn opens_at(s: Seq<char>, p: int) -> bool {
    0 <= p && p + 5 <= s.len() && s[p] == '<' && s[p + 1] == 'n' && s[p + 2] == 'o' && s[p + 3]
        == 't' && s[p + 4] == 'e'
}

/// A tag starts at `p`: the marker, then at least one character other than `>`, then a `>`.
pub open spec fn tag_at(s: Seq<char>, p: int) -> bool {
    opens_at(s, p) && p + 5 < s.len() && s[p + 5] != '>' && find_from(s, p + 5, '>') < s.len()
}

/// The tags of `s` found by scanning from position `i`, leftmost first, none overlapping:
/// each is the shortest span from the marker to the next `>`.
pub open spec fn tags_from(s: Seq<char>, i: int) -> Seq<Seq<char>>
    decreases s.len() - i,
    via tags_from_decreases
{
    if i < 0 || i >= s.len() {
        Seq::empty()
    } else if tag_at(s, i) {
        let e = find_from(s, i + 5, '>');
        seq![s.subrange(i, e + 1)] + tags_from(s, e + 1)
    } else {
        tags_from(s, i + 1)
    }
}

#[via_fn]
proof fn tags_from_decreases(s: Seq<char>, i: int) {
    if 0 <= i < s.len() && tag_at(s, i) {
        lemma_find_from_bounds(s, i + 5, '>');
    }
}

/// Finds the annotation tags in a text.
#[derive(Clone, Debug)]
pub struct TagExtractor {}

impl TagExtractor {
    /// An extractor.
    pub fn new() -> (r: TagExtractor) {
        TagExtractor {  }
    }

    /// Every tag of `text`, in document order.
    pub fn tags(&self, text: &str) -> (r: Vec<String>)
        ensures
            views(r@) == tags_from(text@, 0),
    {
        let v = chars_of(text);
        let n = v.len();
        let mut out: Vec<String> = Vec::new();
        let mut i: usize = 0;
        while i < n
            invariant
                n == v@.len(),
                v@ == text@,
                i <= n,
                views(out@) + tags_from(v@, i as int) == tags_from(v@, 0),
            decreases n - i,
        {
            let opens = n - i > 5 && v[i] == '<' && v[i + 1] == 'n' && v[i + 2] == 'o' && v[i + 3]
                == 't' && v[i + 4] == 'e' && v[i + 5] != '>';
            let e = if opens {
                find_char(&v, i + 5, '>')
            } else {
                n
            };
            if opens && e < n {
                proof {
                    lemma_find_from_bounds(v@, i + 5, '>');
                }
                let tag = substring(text, i, e + 1);
                let ghost before = views(out@);
                out.push(tag);
                assert(views(out@) =~= before.push(tag@));
                assert(views(out@) + tags_from(v@, e as int + 1) =~= before + tags_from(
                    v@,
                    i as int,
                ));
                i = e + 1;
            } else {
                i = i + 1;
            }
        }
        assert(views(out@) + tags_from(v@, i as int) =~= views(out@));
        out
    }
}

} // verus!
