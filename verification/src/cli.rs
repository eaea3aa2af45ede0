//! The parsed command-line options, as plain data consumed by the core,
//! and the file-name filter for candidate paths.

use vstd::prelude::*;

verus! {

/// The subcommands: dump matched blocks, normalize quotes, or run a
/// regex over the blocks.
pub enum Commands {
    TS(Basics),
    Quotes(Basics),
    Regex(RegexOptions),
}

/// What every subcommand takes: an optional query file path and the
/// files to search through, both as path bytes.
pub struct Basics {
    pub treesitter_query: Option<Vec<u8>>,
    pub search_paths: Vec<Vec<u8>>,
}

/// The pattern source: a literal pattern or a pattern file, mutually
/// exclusive.
pub struct RegexPattern {
    pub regex: Option<Vec<u8>>,
    pub regex_file: Option<Vec<u8>>,
}

/// The options of the regex subcommand.
pub struct RegexOptions {
    pub treesitter_query: Option<Vec<u8>>,
    pub regex: RegexPattern,
    pub search_paths: Vec<Vec<u8>>,
    pub ignore_case: bool,
    pub invert_match: bool,
    pub multiline: bool,
    pub replace: Option<Vec<u8>>,
    pub confirm: bool,
    pub no_ts: bool,
}

impl RegexOptions {
    /// The regex subcommand's options, out of the command that holds
    /// them.
    pub fn from(value: Commands) -> (r: RegexOptions)
        requires
            value is Regex,
        ensures
            value == Commands::Regex(r),
    {
        match value {
            Commands::Regex(rg) => rg,
            _ => {
                proof {
                    assert(false);
                }
                unreached()
            },
        }
    }
}

/// The whole command line.
pub struct Cli {
    pub command: Commands,
}

impl Cli {
    /// The query file path of the active command, and whether the
    /// syntax tree is switched off entirely.
    pub fn tree_sitter(&self) -> (r: (Option<&Vec<u8>>, bool))
        ensures
            match self.command {
                Commands::TS(b) => opt_ref_eq(r.0, b.treesitter_query) && r.1 == false,
                Commands::Quotes(b) => opt_ref_eq(r.0, b.treesitter_query) && r.1 == false,
                Commands::Regex(rg) => opt_ref_eq(r.0, rg.treesitter_query) && r.1 == rg.no_ts,
            },
    {
        match &self.command {
            Commands::TS(Basics { treesitter_query, .. }) => (treesitter_query.as_ref(), false),
            Commands::Quotes(Basics { treesitter_query, .. }) => (
                treesitter_query.as_ref(),
                false,
            ),
            Commands::Regex(RegexOptions { treesitter_query, no_ts, .. }) => (
                treesitter_query.as_ref(),
                *no_ts,
            ),
        }
    }
}

pub open spec fn opt_ref_eq(r: Option<&Vec<u8>>, o: Option<Vec<u8>>) -> bool {
    match r {
        Some(v) => o == Some(*v),
        None => o is None,
    }
}

/// The last index at which byte `b` occurs in `p`, or -1.
pub open spec fn last_index_of(p: Seq<u8>, b: u8) -> int
    decreases p.len(),
{
    if p.len() == 0 {
        -1
    } else if p.last() == b {
        p.len() - 1
    } else {
        last_index_of(p.drop_last(), b)
    }
}

proof fn lemma_last_index_at(p: Seq<u8>, b: u8, i: int)
    requires
        0 <= i < p.len(),
        p[i] == b,
        forall|j: int| i < j < p.len() ==> p[j] != b,
    ensures
        last_index_of(p, b) == i,
    decreases p.len(),
{
    if i < p.len() - 1 {
        assert(p.last() != b);
        assert(p.drop_last()[i] == p[i]);
        lemma_last_index_at(p.drop_last(), b, i);
    }
}

proof fn lemma_last_index_none(p: Seq<u8>, b: u8)
    requires
        forall|j: int| 0 <= j < p.len() ==> p[j] != b,
    ensures
        last_index_of(p, b) == -1,
    decreases p.len(),
{
    if p.len() > 0 {
        lemma_last_index_none(p.drop_last(), b);
    }
}

fn rfind_byte(p: &[u8], b: u8) -> (r: Option<usize>)
    ensures
        match r {
            Some(i) => last_index_of(p@, b) == i && i < p@.len(),
            None => last_index_of(p@, b) == -1,
        },
{
    let mut i: usize = p.len();
    while i > 0
        invariant
            i <= p@.len(),
            forall|j: int| i <= j < p@.len() ==> p@[j] != b,
        decreases i,
    {
        i = i - 1;
        if p[i] == b {
            proof {
                lemma_last_index_at(p@, b, i as int);
            }
            return Some(i);
        }
    }
    proof {
        lemma_last_index_none(p@, b);
    }
    None
}

/// The path names a Python file: the final component has an extension,
/// and it is `py` in either case.
pub open spec fn is_python_file_spec(p: Seq<u8>) -> bool {
    let d = last_index_of(p, 46);
    &&& d > last_index_of(p, 47) + 1
    &&& d + 3 == p.len()
    &&& (p[d + 1] == 112 || p[d + 1] == 80)
    &&& (p[d + 2] == 121 || p[d + 2] == 89)
}

/// Whether the path, given as bytes, names a Python file: its final
/// component must end in a `.py` extension, compared without regard to
/// case, and the dot must not begin the file name.
pub fn is_python_file(path: &[u8]) -> (r: bool)
    ensures
        r == is_python_file_spec(path@),
{
    let n = path.len();
    let slash = rfind_byte(path, 47);
    let dot = rfind_byte(path, 46);
    match dot {
        None => false,
        Some(d) => {
            let name_start: usize = match slash {
                Some(s) => s + 1,
                None => 0,
            };
            d > name_start && n - d == 3 && (path[d + 1] == 112 || path[d + 1] == 80) && (path[d
                + 2] == 121 || path[d + 2] == 89)
        },
    }
}

} // verus!
