//! The arguments of the two commands.
use vstd::prelude::*;

verus! {

/// Lower-case form of a string as `str::to_lowercase` computes it (Unicode
/// lower-case mapping).
pub uninterp spec fn unicode_lowercase(s: Seq<char>) -> Seq<char>;

/// `str::to_lowercase`.
#[verifier::external_body]
pub(crate) fn to_lowercase(s: &str) -> (r: String)
    ensures
        r@ == unicode_lowercase(s@),
{
    s.to_lowercase()
}

/// Subreddit names given on the command line are compared in lower case.
pub fn parse_lowercase(s: &str) -> (r: String)
    ensures
        r@ == unicode_lowercase(s@),
{
    to_lowercase(s)
}

/// Search order of a traversal.
#[derive(Clone, Copy, Debug, PartialEq, Eq, PartialOrd, Ord, Structural)]
pub enum SearchMethod {
    BFS,
    DFS,
}

/// Settings of the zstd encoder.
#[derive(Clone, Debug, PartialEq, Eq, Structural)]
pub struct CompressionArgs {
    /// Compression level from 0 to 22, ignored if the extension is not `.zst`.
    pub level: i32,
    /// Number of worker threads of the encoder (0: single-threaded).
    pub workers: u32,
}

impl Default for CompressionArgs {
    fn default() -> (r: Self)
        ensures
            r.level == 3,
            r.workers == 0,
    {
        CompressionArgs { level: 3, workers: 0 }
    }
}

/// Arguments of the `process` command.
#[derive(Clone, Debug)]
pub struct ProcessArgs {
    pub submissions: Vec<String>,
    pub comments: Vec<String>,
    pub output: String,
    pub include_scores: bool,
    pub compression: CompressionArgs,
}

/// Arguments of the `filter` command.
#[derive(Clone, Debug)]
pub struct FilterArgs {
    /// Input files, `.zst` or `.jsonl`.
    pub input: Vec<String>,
    /// Output file template with the placeholders `{basename}`,
    /// `{subreddit}` and `{timestamp}`.
    pub output: Option<String>,
    /// One output file per subreddit.
    pub split: bool,
    /// Subreddits to keep.
    pub name: Vec<String>,
    pub compression: CompressionArgs,
}

/// The two commands.
#[derive(Clone, Debug)]
pub enum Commands {
    /// Process Reddit threads and comments.
    Process(ProcessArgs),
    /// Filter Reddit data by subreddit.
    Filter(FilterArgs),
}

/// A parsed command line.
#[derive(Clone, Debug)]
pub struct Cli {
    pub command: Commands,
}

} // verus!
