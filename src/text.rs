use vstd::prelude::*;
use vstd::std_specs::iter::IteratorSpec;
use vstd::string::StrSliceExecFns;
use vstd::string::StringExecFns;

verus! {

broadcast use vstd::string::group_string_axioms;

/// The characters of `s`, one element per `char`.
pub fn chars_of(s: &str) -> (r: Vec<char>)
    ensures
        r@ == s@,
{
    let mut r: Vec<char> = Vec::new();
    let mut it = s.chars();
    loop
        invariant
            r@ + it.remaining() == s@,
        ensures
            r@ == s@,
        decreases s@.len() - r@.len(),
    {
        match it.next() {
            Some(c) => {
                r.push(c);
            },
            None => {
                assert(r@ + it.remaining() =~= r@);
                break;
            },
        }
    }
    r
}

/// Unicode `White_Space`, the set that `char::is_whitespace` tests.
pub open spec fn is_space(c: char) -> bool {
    let u = c as u32;
    u == 0x20 || (0x09 <= u && u <= 0x0d) || u == 0x85 || u == 0xa0 || u == 0x1680 || (0x2000
        <= u && u <= 0x200a) || u == 0x2028 || u == 0x2029 || u == 0x202f || u == 0x205f || u
        == 0x3000
}

/// A class of characters that a trim removes.
#[derive(Clone, Copy, Debug, PartialEq, Eq, Structural)]
pub enum Strip {
    /// White space.
    Space,
    /// The double quote.
    Quote,
    /// The closing `>` of a tag.
    Close,
}

/// `c` belongs to the class `k`.
pub open spec fn strippable(c: char, k: Strip) -> bool {
    match k {
        Strip::Space => is_space(c),
        Strip::Quote => c == '"',
        Strip::Close => c == '>',
    }
}

/// `s` without its leading strippable characters.
pub open spec fn drop_front(s: Seq<char>, k: Strip) -> Seq<char>
    decreases s.len(),
{
    if s.len() > 0 && strippable(s[0], k) {
        drop_front(s.drop_first(), k)
    } else {
        s
    }
}

/// `s` without its trailing strippable characters.
pub open spec fn drop_back(s: Seq<char>, k: Strip) -> Seq<char>
    decreases s.len(),
{
    if s.len() > 0 && strippable(s.last(), k) {
        drop_back(s.drop_last(), k)
    } else {
        s
    }
}

/// `s` with white space trimmed from both ends.
pub open spec fn trim(s: Seq<char>) -> Seq<char> {
    drop_back(drop_front(s, Strip::Space), Strip::Space)
}

/// `s` with every leading and trailing double quote removed.
pub open spec fn unquote(s: Seq<char>) -> Seq<char> {
    drop_back(drop_front(s, Strip::Quote), Strip::Quote)
}

/// The first position at or after `j` that holds `c`, or the length of `s`.
pub open spec fn find_from(s: Seq<char>, j: int, c: char) -> int
    decreases s.len() - j,
{
    if j >= s.len() {
        s.len() as int
    } else if s[j] == c {
        j
    } else {
        find_from(s, j + 1, c)
    }
}

/// The views of a sequence of strings.
pub open spec fn views(v: Seq<String>) -> Seq<Seq<char>> {
    v.map_values(|x: String| x@)
}

/// `find_from` gives a position of `c` at or after `j`, or the length, and skips no `c`.
pub proof fn lemma_find_from_bounds(s: Seq<char>, j: int, c: char)
    requires
        0 <= j,
    ensures
        j <= find_from(s, j, c) || j > s.len(),
        find_from(s, j, c) <= s.len(),
        find_from(s, j, c) < s.len() ==> s[find_from(s, j, c)] == c,
        forall|k: int| j <= k < find_from(s, j, c) ==> s[k] != c,
    decreases s.len() - j,
{
    if j < s.len() && s[j] != c {
        lemma_find_from_bounds(s, j + 1, c);
    }
}

/// Whether `c` is white space.
pub fn is_space_char(c: char) -> (r: bool)
    ensures
        r == is_space(c),
{
    let u = c as u32;
    u == 0x20 || (0x09 <= u && u <= 0x0d) || u == 0x85 || u == 0xa0 || u == 0x1680 || (0x2000
        <= u && u <= 0x200a) || u == 0x2028 || u == 0x2029 || u == 0x202f || u == 0x205f || u
        == 0x3000
}

fn is_strippable(c: char, k: Strip) -> (r: bool)
    ensures
        r == strippable(c, k),
{
    match k {
        Strip::Space => is_space_char(c),
        Strip::Quote => c == '"',
        Strip::Close => c == '>',
    }
}

/// The bounds, within `lo..hi`, of that span with its strippable characters removed from both
/// ends.
pub fn strip_span(v: &Vec<char>, lo: usize, hi: usize, k: Strip) -> (r: (usize, usize))
    requires
        lo <= hi <= v@.len(),
    ensures
        lo <= r.0 <= r.1 <= hi,
        v@.subrange(r.0 as int, r.1 as int) == drop_back(
            drop_front(v@.subrange(lo as int, hi as int), k),
            k,
        ),
{
    let mut a: usize = lo;
    while a < hi && is_strippable(v[a], k)
        invariant
            lo <= a <= hi <= v@.len(),
            drop_front(v@.subrange(lo as int, hi as int), k) == drop_front(
                v@.subrange(a as int, hi as int),
                k,
            ),
        decreases hi - a,
    {
        assert(v@.subrange(a as int, hi as int).drop_first() =~= v@.subrange(
            a as int + 1,
            hi as int,
        ));
        a = a + 1;
    }
    assert(drop_front(v@.subrange(a as int, hi as int), k) == v@.subrange(a as int, hi as int));
    let mut b: usize = hi;
    while b > a && is_strippable(v[b - 1], k)
        invariant
            lo <= a <= b <= hi <= v@.len(),
            drop_back(v@.subrange(a as int, hi as int), k) == drop_back(
                v@.subrange(a as int, b as int),
                k,
            ),
        decreases b - a,
    {
        assert(v@.subrange(a as int, b as int).drop_last() =~= v@.subrange(
            a as int,
            b as int - 1,
        ));
        b = b - 1;
    }
    (a, b)
}

/// The first position at or after `j` that holds `c`, or the length of `v`.
pub fn find_char(v: &Vec<char>, j: usize, c: char) -> (r: usize)
    requires
        j <= v@.len(),
    ensures
        r == find_from(v@, j as int, c),
{
    let mut k: usize = j;
    while k < v.len() && v[k] != c
        invariant
            j <= k <= v@.len(),
            find_from(v@, j as int, c) == find_from(v@, k as int, c),
        decreases v@.len() - k,
    {
        k = k + 1;
    }
    k
}

/// The characters of `s` from position `a` up to `b`, as a new string.
pub fn substring(s: &str, a: usize, b: usize) -> (r: String)
    requires
        a <= b <= s@.len(),
    ensures
        r@ == s@.subrange(a as int, b as int),
{
    String::from_str(s.substring_char(a, b))
}

/// The pieces of `s` between the occurrences of `c`, in order; one piece where `c` does not
/// occur.
pub open spec fn split_on(s: Seq<char>, c: char) -> Seq<Seq<char>>
    decreases s.len(),
    via split_on_decreases
{
    let i = find_from(s, 0, c);
    if i < 0 || i >= s.len() {
        seq![s]
    } else {
        seq![s.subrange(0, i)] + split_on(s.subrange(i + 1, s.len() as int), c)
    }
}

#[via_fn]
proof fn split_on_decreases(s: Seq<char>, c: char) {
    lemma_find_from_bounds(s, 0, c);
}

/// Searching a suffix of `s` is searching `s` from where the suffix starts.
pub proof fn lemma_find_from_suffix(s: Seq<char>, p: int, j: int, c: char)
    requires
        0 <= p <= s.len(),
        0 <= j,
    ensures
        find_from(s.subrange(p, s.len() as int), j, c) == find_from(s, p + j, c) - p,
    decreases s.len() - p - j,
{
    if p + j < s.len() && s[p + j] != c {
        lemma_find_from_suffix(s, p, j + 1, c);
    }
}

/// `s` with its leading and trailing double quotes removed.
pub fn unquoted(s: &String) -> (r: String)
    ensures
        r@ == unquote(s@),
{
    let v = chars_of(s.as_str());
    let (a, b) = strip_span(&v, 0, v.len(), Strip::Quote);
    assert(v@.subrange(0, v@.len() as int) =~= v@);
    substring(s.as_str(), a, b)
}

/// The pieces of `s` between its commas, each with white space trimmed.
pub fn split_trimmed(s: &str) -> (r: Vec<String>)
    ensures
        views(r@) == split_on(s@, ',').map_values(|p: Seq<char>| trim(p)),
{
    let v = chars_of(s);
    let n = v.len();
    let mut out: Vec<String> = Vec::new();
    let mut p: usize = 0;
    let mut done = false;
    assert(v@.subrange(0, n as int) =~= s@);
    assert(views(out@) + split_on(s@, ',').map_values(|q: Seq<char>| trim(q)) =~= split_on(
        s@,
        ',',
    ).map_values(|q: Seq<char>| trim(q)));
    while !done
        invariant
            v@ == s@,
            n == v@.len(),
            p <= n,
            !done ==> split_on(s@, ',').map_values(|q: Seq<char>| trim(q)) == views(out@)
                + split_on(v@.subrange(p as int, n as int), ',').map_values(
                |q: Seq<char>| trim(q),
            ),
            done ==> split_on(s@, ',').map_values(|q: Seq<char>| trim(q)) == views(out@),
        decreases n - p + (if done { 0int } else { 1int }),
    {
        let ghost rest = v@.subrange(p as int, n as int);
        let j = find_char(&v, p, ',');
        proof {
            lemma_find_from_suffix(v@, p as int, 0, ',');
            lemma_find_from_bounds(v@, p as int, ',');
        }
        let (a, b) = strip_span(&v, p, j, Strip::Space);
        let piece = substring(s, a, b);
        let ghost before = views(out@);
        out.push(piece);
        assert(views(out@) =~= before.push(piece@));
        assert(rest.subrange(0, j - p) =~= v@.subrange(p as int, j as int));
        if j < n {
            assert(rest.subrange(j - p + 1, rest.len() as int) =~= v@.subrange(
                j as int + 1,
                n as int,
            ));
            assert(split_on(rest, ',').map_values(|q: Seq<char>| trim(q)) =~= seq![piece@]
                + split_on(v@.subrange(j as int + 1, n as int), ',').map_values(
                |q: Seq<char>| trim(q),
            ));
            p = j + 1;
        } else {
            assert(split_on(rest, ',').map_values(|q: Seq<char>| trim(q)) =~= seq![piece@]);
            done = true;
        }
    }
    out
}

} // verus!
