use vstd::prelude::*;
use vstd::string::StrSliceExecFns;
use vstd::string::StringExecFns;
use crate::cli::Config;

verus! {

/// `name` joined under the directory `dir`, with one `/` between them.
pub open spec fn join(dir: Seq<char>, name: Seq<char>) -> Seq<char> {
    if dir.len() == 0 {
        name
    } else if dir.last() == '/' {
        dir + name
    } else {
        dir + seq!['/'] + name
    }
}

/// `.tool`
pub open spec fn tool_dir_name() -> Seq<char> {
    seq!['.', 't', 'o', 'o', 'l']
}

/// `notes.json`
pub open spec fn config_file_name() -> Seq<char> {
    seq!['n', 'o', 't', 'e', 's', '.', 'j', 's', 'o', 'n']
}

/// `notecache.bin.gz`
pub open spec fn cache_file_name() -> Seq<char> {
    seq!['n', 'o', 't', 'e', 'c', 'a', 'c', 'h', 'e', '.', 'b', 'i', 'n', '.', 'g', 'z']
}

/// Where the program keeps its files: a tool directory, and in it the configuration and the
/// cache.
#[derive(Clone, Debug)]
pub struct ApplicationPaths {
    tools: String,
    config: String,
    cache: String,
}

fn join_path(dir: &str, name: &str) -> (r: String)
    ensures
        r@ == join(dir@, name@),
{
    let n = dir.unicode_len();
    if n == 0 {
        String::from_str(name)
    } else if dir.get_char(n - 1) == '/' {
        String::from_str(dir).concat(name)
    } else {
        let r = String::from_str(dir).concat("/").concat(name);
        proof {
            reveal_strlit("/");
        }
        assert(r@ =~= dir@ + seq!['/'] + name@);
        r
    }
}

impl ApplicationPaths {
    /// The tool directory.
    pub closed spec fn tools_spec(&self) -> Seq<char> {
        self.tools@
    }

    /// The configuration file.
    pub closed spec fn config_spec(&self) -> Seq<char> {
        self.config@
    }

    /// The cache file.
    pub closed spec fn cache_spec(&self) -> Seq<char> {
        self.cache@
    }

    /// The paths under `dir`, the current working directory: `dir/.tool`, and in it
    /// `notes.json` and `notecache.bin.gz`.
    pub fn from_current(dir: &str) -> (r: ApplicationPaths)
        ensures
            r.tools_spec() == join(dir@, tool_dir_name()),
            r.config_spec() == join(join(dir@, tool_dir_name()), config_file_name()),
            r.cache_spec() == join(join(dir@, tool_dir_name()), cache_file_name()),
    {
        proof {
            reveal_strlit(".tool");
            reveal_strlit("notes.json");
            reveal_strlit("notecache.bin.gz");
        }
        assert(".tool"@ =~= tool_dir_name());
        assert("notes.json"@ =~= config_file_name());
        assert("notecache.bin.gz"@ =~= cache_file_name());
        let tools = join_path(dir, ".tool");
        let config = join_path(tools.as_str(), "notes.json");
        let cache = join_path(tools.as_str(), "notecache.bin.gz");
        ApplicationPaths { tools, config, cache }
    }

    /// The tool directory.
    pub fn tools(&self) -> (r: &String)
        ensures
            r@ == self.tools_spec(),
    {
        &self.tools
    }

    /// The configuration file.
    pub fn config(&self) -> (r: &String)
        ensures
            r@ == self.config_spec(),
    {
        &self.config
    }

    /// The cache file.
    pub fn cache(&self) -> (r: &String)
        ensures
            r@ == self.cache_spec(),
    {
        &self.cache
    }
}

/// The stored configuration: the directory whose files hold the notes.
#[derive(Clone, Debug)]
pub struct Configuration {
    pub root: String,
}

impl Configuration {
    /// The configuration that the `config` command records.
    pub fn from_command(command: &Config) -> (r: Configuration)
        ensures
            r.root@ == command.root@,
    {
        Configuration { root: command.root.clone() }
    }
}

} // verus!
