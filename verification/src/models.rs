use vstd::prelude::*;

verus! {

/// One language known to the analyzer: a display name and the file
/// extension (written without its dot) that identifies the language.
#[derive(Debug, Clone, PartialEq, Eq)]
pub struct LanguageEntry {
    pub language: String,
    pub extension: String,
}

/// View of a language table as (name, extension) pairs of character sequences.
pub open spec fn registry_view(s: Seq<LanguageEntry>) -> Seq<(Seq<char>, Seq<char>)> {
    s.map_values(|e: LanguageEntry| (e.language@, e.extension@))
}

/// Percentage of `part` against `total`, in tenths of a percent, rounded to
/// the nearest tenth with exact halves rounded up. An empty total yields 0.
pub open spec fn pct_tenths(part: nat, total: nat) -> nat {
    if total == 0 {
        0
    } else {
        (2000 * part + total) / (2 * total)
    }
}

/// Per-language totals: how many files belong to the language and how many
/// lines those files hold together.
#[derive(Debug, Clone, Copy, PartialEq, Eq, Structural)]
pub struct LanguageStats {
    pub files: usize,
    pub lines: usize,
}

impl LanguageStats {
    /// The file share and line share of this language against the grand
    /// totals, each in tenths of a percent. A zero total yields zero for
    /// the corresponding share rather than an error.
    pub fn calculate_percentages(&self, total_files: usize, total_lines: usize) -> (r: (u64, u64))
        requires
            self.files <= total_files,
            self.lines <= total_lines,
        ensures
            r.0 == pct_tenths(self.files as nat, total_files as nat),
            r.1 == pct_tenths(self.lines as nat, total_lines as nat),
            total_files == 0 ==> r.0 == 0,
            total_lines == 0 ==> r.1 == 0,
            r.0 <= 1000 && r.1 <= 1000,
    {
        let file_pct = pct_tenths_exec(self.files, total_files);
        let line_pct = pct_tenths_exec(self.lines, total_lines);
        (file_pct, line_pct)
    }
}

/// Compute `pct_tenths` on machine integers.
fn pct_tenths_exec(part: usize, total: usize) -> (r: u64)
    requires
        part <= total,
    ensures
        r == pct_tenths(part as nat, total as nat),
        r <= 1000,
{
    if total == 0 {
        0
    } else {
        let p = part as u128;
        let t = total as u128;
        let q = (2000 * p + t) / (2 * t);
        proof {
            assert((2000 * p + t) / (2 * t) <= 1000 && (2000 * (part as nat) + (total as nat)) / (
            2 * (total as nat)) == (2000 * p + t) / (2 * t)) by (nonlinear_arith)
                requires
                    p == part as nat,
                    t == total as nat,
                    p <= t,
                    t >= 1,
            ;
        }
        q as u64
    }
}

/// The outcome of analyzing one file: the language it was classified as,
/// and the number of lines it holds.
#[derive(Debug, Clone, PartialEq, Eq)]
pub struct FileAnalysis {
    pub language: String,
    pub line_count: usize,
}

/// View of a collection of per-file results as (language, lines) pairs.
pub open spec fn records_view(s: Seq<FileAnalysis>) -> Seq<(Seq<char>, nat)> {
    s.map_values(|fa: FileAnalysis| (fa.language@, fa.line_count as nat))
}

/// Aggregate results of a whole run: per-language statistics keyed by
/// language name (each name occurring once), plus grand totals.
#[derive(Debug, Clone, PartialEq, Eq)]
pub struct AnalysisResults {
    pub stats: Vec<(String, LanguageStats)>,
    pub total_files: usize,
    pub total_lines: usize,
}

/// View of a per-language table as (language, (files, lines)) pairs.
pub open spec fn stats_table_view(s: Seq<(String, LanguageStats)>) -> Seq<
    (Seq<char>, (nat, nat)),
> {
    s.map_values(|e: (String, LanguageStats)| (e.0@, (e.1.files as nat, e.1.lines as nat)))
}

impl AnalysisResults {
    /// View of the per-language table as (language, (files, lines)) pairs.
    pub open spec fn stats_view(&self) -> Seq<(Seq<char>, (nat, nat))> {
        stats_table_view(self.stats@)
    }
}

/// Errors of an analysis run. Only a missing or non-directory root is
/// fatal; everything else is handled by skipping the affected entry.
#[derive(Debug, Clone, PartialEq, Eq)]
pub enum StatsError {
    /// The root path does not exist or is not a directory; holds the path
    /// as it was given.
    DirectoryNotFound(String),
    /// An input or output failure, described in words.
    IoError(String),
}

/// A file system tree as handed to the traverser: every node carries its
/// own name; a file carries its raw bytes, or `None` when it could not be
/// read; a directory carries its children.
#[derive(Debug)]
pub enum FsNode {
    File { name: String, content: Option<Vec<u8>> },
    Dir { name: String, entries: Vec<FsNode> },
}

/// A candidate file the traverser admitted: its path as segments from the
/// root (the file's own name last), and its raw bytes, or `None` when the
/// file could not be read.
#[derive(Debug, Clone, PartialEq, Eq)]
pub struct FoundFile {
    pub path: Vec<String>,
    pub content: Option<Vec<u8>>,
}

/// View of a path as a sequence of segment character sequences.
pub open spec fn path_view(p: Seq<String>) -> Seq<Seq<char>> {
    p.map_values(|s: String| s@)
}

/// View of optional raw bytes.
pub open spec fn content_view(c: Option<Vec<u8>>) -> Option<Seq<u8>> {
    match c {
        Some(v) => Some(v@),
        None => None,
    }
}

/// View of the traverser's output as (path, content) pairs.
pub open spec fn found_view(s: Seq<FoundFile>) -> Seq<(Seq<Seq<char>>, Option<Seq<u8>>)> {
    s.map_values(|f: FoundFile| (path_view(f.path@), content_view(f.content)))
}

} // verus!
