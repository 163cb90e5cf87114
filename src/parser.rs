use vstd::prelude::*;
use vstd::string::StringExecFns;
use crate::note::{opens_at, Comment, CommentModel, Definition, Inline, InlineModel};
use crate::text::{
    chars_of, drop_back, split_on, split_trimmed, strip_span, substring, trim, unquote, unquoted,
    Strip,
};

verus! {

/// The attributes that a tag may carry.
#[derive(Clone, Copy, Debug, PartialEq, Eq, Hash, Structural)]
pub enum Attribute {
    Comment,
    Definition,
    Heading,
    Tags,
    Term,
}

/// Why a tag could not be read as an annotation.
#[derive(Clone, Debug)]
pub enum ParseInlineError {
    /// A key followed by `=` that names no attribute.
    InvalidAttribute(String),
    /// An attribute that this kind of annotation requires is absent.
    MissingAttribute(Attribute),
    /// The tag is neither a comment nor a definition; it holds the tag's interior.
    UnknownType(String),
}

/// What a parse error holds, as plain values.
pub enum ErrorModel {
    InvalidAttribute(Seq<char>),
    MissingAttribute(Attribute),
    UnknownType(Seq<char>),
}

impl View for ParseInlineError {
    type V = ErrorModel;

    open spec fn view(&self) -> ErrorModel {
        match self {
            ParseInlineError::InvalidAttribute(k) => ErrorModel::InvalidAttribute(k@),
            ParseInlineError::MissingAttribute(a) => ErrorModel::MissingAttribute(*a),
            ParseInlineError::UnknownType(t) => ErrorModel::UnknownType(t@),
        }
    }
}

/// An ASCII letter.
pub open spec fn is_letter(c: char) -> bool {
    let u = c as u32;
    (0x41 <= u && u <= 0x5a) || (0x61 <= u && u <= 0x7a)
}

/// `c` is the lower-case ASCII letter `l`, in either case.
pub open spec fn letter_is(c: char, l: char) -> bool {
    c == l || c as u32 + 32 == l as u32
}

/// `k` spells the lower-case word `w`, ignoring ASCII case.
pub open spec fn spells(k: Seq<char>, w: Seq<char>) -> bool {
    k.len() == w.len() && forall|i: int| 0 <= i < k.len() ==> letter_is(#[trigger] k[i], w[i])
}

/// The attribute that a key names, if any.
pub open spec fn attr_of(k: Seq<char>) -> Option<Attribute> {
    if spells(k, seq!['c', 'o', 'm', 'm', 'e', 'n', 't']) {
        Some(Attribute::Comment)
    } else if spells(k, seq!['d', 'e', 'f', 'i', 'n', 'i', 't', 'i', 'o', 'n']) {
        Some(Attribute::Definition)
    } else if spells(k, seq!['h', 'e', 'a', 'd', 'i', 'n', 'g']) {
        Some(Attribute::Heading)
    } else if spells(k, seq!['t', 'a', 'g']) || spells(k, seq!['t', 'a', 'g', 's']) {
        Some(Attribute::Tags)
    } else if spells(k, seq!['t', 'e', 'r', 'm']) {
        Some(Attribute::Term)
    } else {
        None
    }
}

/// Position `i` holds the `=` that ends a key: it follows a letter.
pub open spec fn key_eq_at(t: Seq<char>, i: int) -> bool {
    0 < i < t.len() && t[i] == '=' && is_letter(t[i - 1])
}

/// Where the run of letters that ends at `i` starts.
pub open spec fn word_start(t: Seq<char>, i: int) -> int
    decreases i,
{
    if 0 < i <= t.len() && is_letter(t[i - 1]) {
        word_start(t, i - 1)
    } else {
        i
    }
}

/// The first key's `=` at or after `i`, or the length of `t`.
pub open spec fn next_key(t: Seq<char>, i: int) -> int
    decreases t.len() - i,
{
    if i >= t.len() {
        t.len() as int
    } else if key_eq_at(t, i) {
        i
    } else {
        next_key(t, i + 1)
    }
}

/// The key and raw value pairs of `t` from the key whose `=` stands at `e`: a value runs to
/// the start of the next key, or to the end, and is trimmed.
pub open spec fn pairs_from(t: Seq<char>, e: int) -> Seq<(Seq<char>, Seq<char>)>
    decreases t.len() - e,
    via pairs_from_decreases
{
    if e <= 0 || e >= t.len() {
        Seq::empty()
    } else {
        let n = next_key(t, e + 1);
        let end = if n < t.len() {
            word_start(t, n)
        } else {
            t.len() as int
        };
        seq![(t.subrange(word_start(t, e), e), trim(t.subrange(e + 1, end)))] + pairs_from(t, n)
    }
}

#[via_fn]
proof fn pairs_from_decreases(t: Seq<char>, e: int) {
    if 0 < e < t.len() {
        lemma_next_key_bounds(t, e + 1);
    }
}

/// Every key and raw value pair of a tag's interior `t`, in order.
pub open spec fn raw_pairs(t: Seq<char>) -> Seq<(Seq<char>, Seq<char>)> {
    pairs_from(t, next_key(t, 0))
}

/// The first key of `ps` that names no attribute.
pub open spec fn first_invalid(ps: Seq<(Seq<char>, Seq<char>)>) -> Option<Seq<char>>
    decreases ps.len(),
{
    if ps.len() == 0 {
        None
    } else {
        match first_invalid(ps.drop_last()) {
            Some(k) => Some(k),
            None => if attr_of(ps.last().0) is None {
                Some(ps.last().0)
            } else {
                None
            },
        }
    }
}

/// The value of the last pair of `ps` whose key names `a`.
pub open spec fn last_value(ps: Seq<(Seq<char>, Seq<char>)>, a: Attribute) -> Option<Seq<char>>
    decreases ps.len(),
{
    if ps.len() == 0 {
        None
    } else if attr_of(ps.last().0) == Some(a) {
        Some(ps.last().1)
    } else {
        last_value(ps.drop_last(), a)
    }
}

/// The next key's `=` is at or after `i`, and is one where it is inside `t`.
pub proof fn lemma_next_key_bounds(t: Seq<char>, i: int)
    requires
        0 <= i,
    ensures
        i <= next_key(t, i) || i > t.len(),
        next_key(t, i) <= t.len(),
        next_key(t, i) < t.len() ==> key_eq_at(t, next_key(t, i)),
    decreases t.len() - i,
{
    if i < t.len() && !key_eq_at(t, i) {
        lemma_next_key_bounds(t, i + 1);
    }
}

/// A run of letters that ends at `i` starts after any non-letter before `i`.
pub proof fn lemma_word_start_bounds(t: Seq<char>, i: int, j: int)
    requires
        0 <= j < i <= t.len(),
        !is_letter(t[j]),
    ensures
        j < word_start(t, i) <= i,
    decreases i,
{
    if is_letter(t[i - 1]) {
        lemma_word_start_bounds(t, i - 1, j);
    }
}

/// A run of letters that ends at `i` starts within `0..=i`.
pub proof fn lemma_word_start_range(t: Seq<char>, i: int)
    requires
        0 <= i <= t.len(),
    ensures
        0 <= word_start(t, i) <= i,
    decreases i,
{
    if 0 < i && is_letter(t[i - 1]) {
        lemma_word_start_range(t, i - 1);
    }
}

fn is_letter_char(c: char) -> (r: bool)
    ensures
        r == is_letter(c),
{
    let u = c as u32;
    (0x41 <= u && u <= 0x5a) || (0x61 <= u && u <= 0x7a)
}

fn word_start_of(v: &Vec<char>, i: usize) -> (r: usize)
    requires
        i <= v@.len(),
    ensures
        r == word_start(v@, i as int),
{
    let mut j: usize = i;
    while j > 0 && is_letter_char(v[j - 1])
        invariant
            j <= i <= v@.len(),
            word_start(v@, i as int) == word_start(v@, j as int),
        decreases j,
    {
        j = j - 1;
    }
    j
}

fn next_key_of(v: &Vec<char>, i: usize) -> (r: usize)
    requires
        i <= v@.len(),
    ensures
        r == next_key(v@, i as int),
{
    let mut j: usize = i;
    while j < v.len() && !(j > 0 && v[j] == '=' && is_letter_char(v[j - 1]))
        invariant
            i <= j <= v@.len(),
            next_key(v@, i as int) == next_key(v@, j as int),
        decreases v@.len() - j,
    {
        j = j + 1;
    }
    j
}

fn letter_matches(c: char, l: char) -> (r: bool)
    requires
        l as u32 >= 32,
    ensures
        r == letter_is(c, l),
{
    c == l || c as u32 + 32 == l as u32
}

/// Whether the key `k` spells the lower-case word `w`, ignoring ASCII case.
fn spells_word(k: &Vec<char>, w: &Vec<char>) -> (r: bool)
    requires
        forall|i: int| 0 <= i < w@.len() ==> w@[i] as u32 >= 32,
    ensures
        r == spells(k@, w@),
{
    if k.len() != w.len() {
        return false;
    }
    let mut i: usize = 0;
    while i < k.len()
        invariant
            k@.len() == w@.len(),
            forall|i: int| 0 <= i < w@.len() ==> w@[i] as u32 >= 32,
            i <= k@.len(),
            forall|j: int| 0 <= j < i ==> letter_is(#[trigger] k@[j], w@[j]),
        decreases k@.len() - i,
    {
        if !letter_matches(k[i], w[i]) {
            return false;
        }
        i = i + 1;
    }
    true
}

impl Attribute {
    /// The attribute that `key` names, ignoring ASCII case; `tag` and `tags` both name
    /// the tags.
    pub fn from_key(key: &str) -> (r: Result<Attribute, ParseInlineError>)
        ensures
            match r {
                Ok(a) => attr_of(key@) == Some(a),
                Err(e) => attr_of(key@) is None && e@ == ErrorModel::InvalidAttribute(key@),
            },
    {
        let k = chars_of(key);
        if spells_word(&k, &vec!['c', 'o', 'm', 'm', 'e', 'n', 't']) {
            Ok(Attribute::Comment)
        } else if spells_word(&k, &vec!['d', 'e', 'f', 'i', 'n', 'i', 't', 'i', 'o', 'n']) {
            Ok(Attribute::Definition)
        } else if spells_word(&k, &vec!['h', 'e', 'a', 'd', 'i', 'n', 'g']) {
            Ok(Attribute::Heading)
        } else if spells_word(&k, &vec!['t', 'a', 'g']) || spells_word(
            &k,
            &vec!['t', 'a', 'g', 's'],
        ) {
            Ok(Attribute::Tags)
        } else if spells_word(&k, &vec!['t', 'e', 'r', 'm']) {
            Ok(Attribute::Term)
        } else {
            Err(ParseInlineError::InvalidAttribute(String::from_str(key)))
        }
    }
}

/// The value of each attribute of one tag, where the tag gives one.
#[derive(Clone, Debug)]
pub struct AttributeDict {
    pub comment: Option<String>,
    pub definition: Option<String>,
    pub heading: Option<String>,
    pub tags: Option<String>,
    pub term: Option<String>,
}

pub open spec fn opt_chars(o: Option<String>) -> Option<Seq<char>> {
    match o {
        Some(s) => Some(s@),
        None => None,
    }
}

impl AttributeDict {
    /// The value given for `a`.
    pub open spec fn value(&self, a: Attribute) -> Option<Seq<char>> {
        match a {
            Attribute::Comment => opt_chars(self.comment),
            Attribute::Definition => opt_chars(self.definition),
            Attribute::Heading => opt_chars(self.heading),
            Attribute::Tags => opt_chars(self.tags),
            Attribute::Term => opt_chars(self.term),
        }
    }

    /// A dictionary with no attribute set.
    pub fn empty() -> (r: AttributeDict)
        ensures
            forall|a: Attribute| r.value(a) is None,
    {
        AttributeDict { comment: None, definition: None, heading: None, tags: None, term: None }
    }

    /// The value of `a`, if the tag gave one.
    pub fn get(&self, a: Attribute) -> (r: Option<&String>)
        ensures
            opt_chars(
                match r {
                    Some(s) => Some(*s),
                    None => None,
                },
            ) == self.value(a),
    {
        match a {
            Attribute::Comment => self.comment.as_ref(),
            Attribute::Definition => self.definition.as_ref(),
            Attribute::Heading => self.heading.as_ref(),
            Attribute::Tags => self.tags.as_ref(),
            Attribute::Term => self.term.as_ref(),
        }
    }

    /// Gives `a` the value `v`, replacing any earlier one.
    pub fn insert(&mut self, a: Attribute, v: String)
        ensures
            final(self).value(a) == Some(v@),
            forall|b: Attribute| b != a ==> final(self).value(b) == old(self).value(b),
    {
        match a {
            Attribute::Comment => self.comment = Some(v),
            Attribute::Definition => self.definition = Some(v),
            Attribute::Heading => self.heading = Some(v),
            Attribute::Tags => self.tags = Some(v),
            Attribute::Term => self.term = Some(v),
        }
    }
}

/// Splits a tag's interior into its attributes.
#[derive(Clone, Debug)]
pub struct TagParser {}

impl TagParser {
    /// A tag parser.
    pub fn new() -> (r: TagParser) {
        TagParser {  }
    }

    /// The attributes of the tag interior `s`. Each key is a run of letters directly
    /// followed by `=`; its value is the trimmed text up to the next key, or to the end. A
    /// later value of an attribute replaces an earlier one; the first key that names no
    /// attribute is an error.
    pub fn build_attribute_dict(&self, s: &str) -> (r: Result<AttributeDict, ParseInlineError>)
        ensures
            match r {
                Ok(d) => first_invalid(raw_pairs(s@)) is None && forall|a: Attribute|
                    d.value(a) == last_value(raw_pairs(s@), a),
                Err(e) => first_invalid(raw_pairs(s@)) is Some && e@
                    == ErrorModel::InvalidAttribute(first_invalid(raw_pairs(s@))->0),
            },
    {
        let v = chars_of(s);
        let n = v.len();
        let mut d = AttributeDict::empty();
        let mut e = next_key_of(&v, 0);
        let ghost done: Seq<(Seq<char>, Seq<char>)> = Seq::empty();
        proof {
            lemma_next_key_bounds(v@, 0);
            assert(done + pairs_from(v@, e as int) =~= raw_pairs(s@));
        }
        while e < n
            invariant
                v@ == s@,
                n == v@.len(),
                e <= n,
                e < n ==> key_eq_at(v@, e as int),
                done + pairs_from(v@, e as int) == raw_pairs(s@),
                first_invalid(done) is None,
                forall|a: Attribute| d.value(a) == last_value(done, a),
            decreases n - e,
        {
            let ks = word_start_of(&v, e);
            let nx = next_key_of(&v, e + 1);
            proof {
                lemma_next_key_bounds(v@, e as int + 1);
                lemma_word_start_range(v@, e as int);
            }
            let end = if nx < n {
                proof {
                    lemma_word_start_bounds(v@, nx as int, e as int);
                }
                word_start_of(&v, nx)
            } else {
                n
            };
            let (a, b) = strip_span(&v, e + 1, end, Strip::Space);
            let key = substring(s, ks, e);
            let value = substring(s, a, b);
            let ghost pair = (key@, value@);
            assert(pairs_from(v@, e as int) == seq![pair] + pairs_from(v@, nx as int));
            assert(done.push(pair) + pairs_from(v@, nx as int) =~= done + pairs_from(
                v@,
                e as int,
            ));
            assert(done.push(pair).drop_last() =~= done);
            match Attribute::from_key(key.as_str()) {
                Ok(attr) => {
                    d.insert(attr, value);
                },
                Err(err) => {
                    assert(first_invalid(raw_pairs(s@)) == Some(key@)) by {
                        lemma_first_invalid_prefix(done.push(pair), pairs_from(v@, nx as int));
                    }
                    return Err(err);
                },
            }
            proof {
                done = done.push(pair);
            }
            e = nx;
        }
        assert(done + pairs_from(v@, e as int) =~= done);
        Ok(d)
    }
}

/// The first invalid key of a sequence that starts with `a` is found in `a`, when `a` has one.
pub proof fn lemma_first_invalid_prefix(
    a: Seq<(Seq<char>, Seq<char>)>,
    b: Seq<(Seq<char>, Seq<char>)>,
)
    requires
        first_invalid(a) is Some,
    ensures
        first_invalid(a + b) == first_invalid(a),
    decreases b.len(),
{
    if b.len() > 0 {
        lemma_first_invalid_prefix(a, b.drop_last());
        assert((a + b).drop_last() =~= a + b.drop_last());
    } else {
        assert(a + b =~= a);
    }
}

/// `s` without the markers `<note ` that open it.
pub open spec fn strip_openers(s: Seq<char>) -> Seq<char>
    decreases s.len(),
{
    if s.len() >= 6 && opens_at(s, 0) && s[5] == ' ' {
        strip_openers(s.subrange(6, s.len() as int))
    } else {
        s
    }
}

/// The interior of a tag: its text without the opening markers and the closing `>`.
pub open spec fn interior(s: Seq<char>) -> Seq<char> {
    drop_back(strip_openers(s), Strip::Close)
}

/// The annotation that the tag `s` denotes, or why it denotes none. A comment takes precedence
/// over a definition.
pub open spec fn inline_of(s: Seq<char>) -> Result<InlineModel, ErrorModel> {
    let t = interior(s);
    let ps = raw_pairs(t);
    if first_invalid(ps) is Some {
        Err(ErrorModel::InvalidAttribute(first_invalid(ps)->0))
    } else if last_value(ps, Attribute::Comment) is Some {
        if last_value(ps, Attribute::Tags) is None {
            Err(ErrorModel::MissingAttribute(Attribute::Tags))
        } else {
            Ok(
                InlineModel::Comment(
                    CommentModel {
                        tags: split_on(unquote(last_value(ps, Attribute::Tags)->0), ',').map_values(
                            |p: Seq<char>| trim(p),
                        ),
                        heading: match last_value(ps, Attribute::Heading) {
                            Some(h) => Some(unquote(h)),
                            None => None,
                        },
                        comment: unquote(last_value(ps, Attribute::Comment)->0),
                    },
                ),
            )
        }
    } else if last_value(ps, Attribute::Term) is Some {
        if last_value(ps, Attribute::Definition) is None {
            Err(ErrorModel::MissingAttribute(Attribute::Definition))
        } else {
            Ok(
                InlineModel::Definition {
                    term: unquote(last_value(ps, Attribute::Term)->0),
                    definition: unquote(last_value(ps, Attribute::Definition)->0),
                },
            )
        }
    } else {
        Err(ErrorModel::UnknownType(t))
    }
}

pub open spec fn result_view(r: Result<Inline, ParseInlineError>) -> Result<
    InlineModel,
    ErrorModel,
> {
    match r {
        Ok(i) => Ok(i@),
        Err(e) => Err(e@),
    }
}

/// Reads one tag as an annotation.
#[derive(Clone, Debug)]
pub struct InlineParser {
    tag_parser: TagParser,
}

impl InlineParser {
    /// An inline parser.
    pub fn new() -> (r: InlineParser) {
        InlineParser { tag_parser: TagParser::new() }
    }

    /// The interior of the tag `s`.
    pub fn interior_of(s: &str) -> (r: String)
        ensures
            r@ == interior(s@),
    {
        let v = chars_of(s);
        let n = v.len();
        let mut p: usize = 0;
        assert(v@.subrange(0, n as int) =~= v@);
        while n - p >= 6 && v[p] == '<' && v[p + 1] == 'n' && v[p + 2] == 'o' && v[p + 3] == 't'
            && v[p + 4] == 'e' && v[p + 5] == ' '
            invariant
                v@ == s@,
                n == v@.len(),
                p <= n,
                strip_openers(s@) == strip_openers(v@.subrange(p as int, n as int)),
            decreases n - p,
        {
            assert(v@.subrange(p as int, n as int).subrange(6, n - p) =~= v@.subrange(
                p as int + 6,
                n as int,
            ));
            p = p + 6;
        }
        let mut q: usize = n;
        assert(strip_openers(v@.subrange(p as int, n as int)) == v@.subrange(p as int, n as int));
        while q > p && v[q - 1] == '>'
            invariant
                p <= q <= n == v@.len(),
                interior(s@) == drop_back(v@.subrange(p as int, q as int), Strip::Close),
            decreases q - p,
        {
            assert(v@.subrange(p as int, q as int).drop_last() =~= v@.subrange(
                p as int,
                q as int - 1,
            ));
            q = q - 1;
        }
        substring(s, p, q)
    }

    /// The annotation that the tag `s` denotes: a comment where the tag has a comment (its
    /// tags then required), else a definition where it has a term (its definition then
    /// required).
    pub fn parse(&self, s: &str) -> (r: Result<Inline, ParseInlineError>)
        ensures
            result_view(r) == inline_of(s@),
    {
        let inner = InlineParser::interior_of(s);
        let d = match self.tag_parser.build_attribute_dict(inner.as_str()) {
            Ok(d) => d,
            Err(e) => {
                return Err(e);
            },
        };
        match d.get(Attribute::Comment) {
            Some(c) => match d.get(Attribute::Tags) {
                None => Err(ParseInlineError::MissingAttribute(Attribute::Tags)),
                Some(t) => {
                    let tv = unquoted(t);
                    let tags = split_trimmed(tv.as_str());
                    let heading = match d.get(Attribute::Heading) {
                        Some(h) => Some(unquoted(h)),
                        None => None,
                    };
                    let comment = Comment { tags, heading, comment: unquoted(c) };
                    Ok(Inline::Comment(Box::new(comment)))
                },
            },
            None => match d.get(Attribute::Term) {
                Some(term) => match d.get(Attribute::Definition) {
                    None => Err(ParseInlineError::MissingAttribute(Attribute::Definition)),
                    Some(def) => {
                        let definition = Definition {
                            term: unquoted(term),
                            definition: unquoted(def),
                        };
                        Ok(Inline::Definition(Box::new(definition)))
                    },
                },
                None => Err(ParseInlineError::UnknownType(inner)),
            },
        }
    }
}

/// A tag that gives both a comment and a term is never read as a definition: it is a comment
/// wherever it also gives its tags and names no unknown attribute.
pub proof fn lemma_comment_precedes_term(s: Seq<char>)
    requires
        last_value(raw_pairs(interior(s)), Attribute::Comment) is Some,
        last_value(raw_pairs(interior(s)), Attribute::Term) is Some,
    ensures
        !(inline_of(s) is Ok && inline_of(s)->Ok_0 is Definition),
        first_invalid(raw_pairs(interior(s))) is None && last_value(
            raw_pairs(interior(s)),
            Attribute::Tags,
        ) is Some ==> inline_of(s) is Ok && inline_of(s)->Ok_0 is Comment,
{
}

} // verus!
