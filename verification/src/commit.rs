//! Parsed commits, as the import takes them.
use crate::graph;
use crate::graph::Encoding;
use crate::line_units;
use crate::line_units::{
    clone_bytes, is_generated_diff_skip_path, split_graph_first_lines, GitDiffLine,
};
use crate::message;
use crate::message::{full_message, PushTrailer};
use crate::text;
use vstd::prelude::*;

verus! {

/// Type of file operation.
#[derive(Clone, Copy, Debug, PartialEq, Eq, Structural)]
pub enum FileOperation {
    /// File was added.
    Added,
    /// File was modified.
    Modified,
    /// File was deleted.
    Deleted,
    /// File was renamed (old_path -> path).
    Renamed,
    /// File was copied.
    Copied,
}

/// A file changed in a commit.
#[derive(Debug)]
pub struct ParsedFile {
    /// Relative path in the repository.
    pub path: String,
    /// Type of change.
    pub operation: FileOperation,
    /// New content (for added/modified files).
    pub new_content: Option<Vec<u8>>,
    /// Old content at the parent commit (for modified/deleted files).
    pub old_content: Option<Vec<u8>>,
    /// Git diff lines for this file.
    pub diff_lines: Option<Vec<GitDiffLine>>,
    /// Old path (for renames).
    pub old_path: Option<String>,
    /// Canonical Git mode of the resulting path.
    pub new_mode: Option<u32>,
    /// Encoding detected in the new content, or in no content at all.
    pub new_encoding: Encoding,
    /// Encoding detected in the old content, where there is any.
    pub old_encoding: Option<Encoding>,
}

/// A `ParsedFile` as a value.
#[verifier::ext_equal]
pub struct ParsedFileView {
    pub path: Seq<char>,
    pub operation: FileOperation,
    pub new_content: Option<Seq<u8>>,
    pub old_content: Option<Seq<u8>>,
    pub diff_lines: Option<Seq<line_units::DiffLineView>>,
    pub old_path: Option<Seq<char>>,
    pub new_mode: Option<u32>,
    pub new_encoding: Encoding,
    pub old_encoding: Option<Encoding>,
}

/// The views of optional diff lines.
pub open spec fn opt_diff(o: Option<Vec<GitDiffLine>>) -> Option<Seq<line_units::DiffLineView>> {
    match o {
        Some(v) => Some(line_units::diff_views(v@)),
        None => None,
    }
}

impl View for ParsedFile {
    type V = ParsedFileView;

    open spec fn view(&self) -> ParsedFileView {
        ParsedFileView {
            path: self.path@,
            operation: self.operation,
            new_content: graph::opt_bytes(self.new_content),
            old_content: graph::opt_bytes(self.old_content),
            diff_lines: opt_diff(self.diff_lines),
            old_path: text::opt_text(self.old_path),
            new_mode: self.new_mode,
            new_encoding: self.new_encoding,
            old_encoding: self.old_encoding,
        }
    }
}

/// The views of a list of files.
pub open spec fn file_views(v: Seq<ParsedFile>) -> Seq<ParsedFileView> {
    v.map_values(|f: ParsedFile| f@)
}

/// Metadata extracted from a Git commit.
#[derive(Debug)]
pub struct CommitMetadata {
    /// Author name.
    pub author_name: String,
    /// Author email (if available).
    pub author_email: Option<String>,
    /// Raw author-name bytes as recorded on the commit object.
    pub author_name_raw: Vec<u8>,
    /// Raw author-email bytes as recorded on the commit object.
    pub author_email_raw: Option<Vec<u8>>,
    /// Commit timestamp (Unix seconds).
    pub timestamp: i64,
    /// Commit message (first line).
    pub message: String,
    /// Commit description (remaining lines).
    pub description: Option<String>,
    /// Raw author time (Unix seconds).
    pub author_time: i64,
    /// Raw author timezone offset seconds.
    pub author_time_offset_seconds: i64,
    /// Raw committer name.
    pub committer_name: String,
    /// Raw committer email (if available).
    pub committer_email: Option<String>,
    /// Raw committer-name bytes.
    pub committer_name_raw: Vec<u8>,
    /// Raw committer-email bytes.
    pub committer_email_raw: Option<Vec<u8>>,
    /// Raw committer time (Unix seconds).
    pub committer_time: i64,
    /// Raw committer timezone offset seconds.
    pub committer_time_offset_seconds: i64,
}

/// A parsed Git commit, ready to be written.
#[derive(Debug)]
pub struct ParsedCommit {
    /// Git commit SHA.
    pub git_sha: String,
    /// Short SHA for display.
    pub short_sha: String,
    /// Commit metadata.
    pub metadata: CommitMetadata,
    /// Files changed in this commit.
    pub files: Vec<ParsedFile>,
    /// Index of the first parent in the commits array (none for a root).
    pub parent_index: Option<usize>,
    /// Complete ordered Git parent ids, as hexadecimal text.
    pub parent_oids: Vec<String>,
    /// Committer time (Unix seconds).
    pub committer_time: i64,
    /// Whether this is a merge commit.
    pub is_merge: bool,
    /// Whether no file changed.
    pub is_empty: bool,
    /// Push trailers, when the commit message ends with them.
    pub push_trailer: Option<PushTrailer>,
    /// Complete Git tree of this commit, as hexadecimal text.
    pub tree_oid: String,
    /// First-parent tree, as hexadecimal text.
    pub parent_tree_oid: Option<String>,
    /// The complete raw commit object.
    pub raw_object: Vec<u8>,
}

impl ParsedCommit {
    /// The complete message: subject and body.
    pub fn full_message(&self) -> (r: String)
        ensures
            r@ == message::full_text(
                self.metadata.message@,
                text::opt_text(self.metadata.description),
            ),
    {
        match &self.metadata.description {
            Some(d) => full_message(&self.metadata.message, Some(d.as_str())),
            None => full_message(&self.metadata.message, None),
        }
    }
}

/// The lines by which the content of a file is imported: the whole content
/// as one line where it is binary or generated, else its line units.
pub open spec fn import_lines_of(path: Seq<char>, content: Seq<u8>, encoding: Encoding) -> Seq<
    Seq<u8>,
> {
    if encoding == Encoding::Binary || line_units::generated_path(path) {
        if content.len() == 0 {
            seq![]
        } else {
            seq![content]
        }
    } else {
        line_units::line_units(content)
    }
}

/// The lines by which the content of a file is imported.
pub fn import_lines(path: &str, content: &[u8], encoding: Encoding) -> (r: Vec<Vec<u8>>)
    ensures
        graph::byte_views(r@) == import_lines_of(path@, content@, encoding),
{
    if encoding == Encoding::Binary || is_generated_diff_skip_path(path) {
        let mut out: Vec<Vec<u8>> = Vec::new();
        if content.len() > 0 {
            out.push(clone_bytes(content));
            assert(graph::byte_views(out@) =~= seq![content@]);
        } else {
            assert(graph::byte_views(out@) =~= Seq::<Seq<u8>>::empty());
        }
        out
    } else {
        split_graph_first_lines(content)
    }
}

/// Imported lines make up the content, and none is empty.
pub proof fn import_lines_make_up_the_content(
    path: Seq<char>,
    content: Seq<u8>,
    encoding: Encoding,
)
    ensures
        line_units::all_bytes(import_lines_of(path, content, encoding)) == content,
        forall|i: int|
            0 <= i < import_lines_of(path, content, encoding).len() ==> (
            #[trigger] import_lines_of(path, content, encoding)[i]).len() > 0,
{
    if encoding == Encoding::Binary || line_units::generated_path(path) {
        if content.len() > 0 {
            let ls = seq![content];
            assert(ls.drop_last() =~= Seq::<Seq<u8>>::empty());
            assert(line_units::all_bytes(ls.drop_last()) =~= Seq::<u8>::empty());
            assert(line_units::all_bytes(ls) =~= content);
        } else {
            assert(line_units::all_bytes(Seq::<Seq<u8>>::empty()) =~= content);
        }
    } else {
        line_units::lines_make_up_the_content(content);
    }
}

} // verus!
