use vstd::prelude::*;

verus! {

/// The command line: one command.
#[derive(Clone, Debug)]
pub struct Args {
    pub command: Command,
}

/// What the program is asked to do.
#[derive(Clone, Debug)]
pub enum Command {
    /// Record the root directory of the notes and build the cache.
    Config(Config),
    /// Print the definition of a term.
    Define(Define),
    /// Print the comments filed under a tag.
    Search(Search),
}

#[derive(Clone, Debug)]
pub struct Config {
    pub root: String,
}

#[derive(Clone, Debug)]
pub struct Define {
    pub term: String,
}

#[derive(Clone, Debug)]
pub struct Search {
    pub tag: String,
}

/// `c` with the ASCII capitals `A` to `Z` mapped to `a` to `z`.
pub open spec fn ascii_lower(c: char) -> char {
    if 'A' <= c && c <= 'Z' {
        ((c as u32) + 32) as char
    } else {
        c
    }
}

/// Relies on `str::to_ascii_lowercase`: each ASCII capital becomes its small letter, every
/// other character stays.
#[verifier::external_body]
fn lowercase_ascii(s: &str) -> (r: String)
    ensures
        r@ == s@.map_values(|c: char| ascii_lower(c)),
{
    s.to_ascii_lowercase()
}

impl Define {
    /// The term as the cache is searched for it: in ASCII small letters.
    pub fn key(&self) -> (r: String)
        ensures
            r@ == self.term@.map_values(|c: char| ascii_lower(c)),
    {
        lowercase_ascii(self.term.as_str())
    }
}

impl Search {
    /// The tag as the cache is searched for it: in ASCII small letters.
    pub fn key(&self) -> (r: String)
        ensures
            r@ == self.tag@.map_values(|c: char| ascii_lower(c)),
    {
        lowercase_ascii(self.tag.as_str())
    }
}

} // verus!
