//! What an imported commit is: a change of its own, a merge, or a squash that
//! its original changes stand for.
use crate::commit;
use crate::commit::{FileOperation, ParsedCommit, ParsedFile};
use crate::error::{git_error, CliError};
use crate::graph;
use crate::graph::ContentHash;
use crate::line_units::same_bytes;
use crate::message;
use crate::message::{parse_atomic_changes_trailer, parse_pr_number, parse_squash_merge_format};
use crate::text;
use crate::text::{clone_texts, same_text, same_texts, to_decimal};
use vstd::prelude::*;

verus! {

/// The originals of a squash.
#[derive(Debug)]
pub struct SquashInsert {
    /// The changes that the squash's trailers name, in their order.
    pub original_hashes: Vec<String>,
    /// The number of the request, if the message gives one.
    pub pr_number: Option<u32>,
}

/// A `SquashInsert` as a value.
#[verifier::ext_equal]
pub struct SquashView {
    pub original_hashes: Seq<Seq<char>>,
    pub pr_number: Option<u32>,
}

impl View for SquashInsert {
    type V = SquashView;

    open spec fn view(&self) -> SquashView {
        SquashView {
            original_hashes: text::texts(self.original_hashes@),
            pr_number: self.pr_number,
        }
    }
}

/// The view of optional originals.
pub open spec fn opt_squash(o: Option<SquashInsert>) -> Option<SquashView> {
    match o {
        Some(s) => Some(s@),
        None => None,
    }
}

/// What is kept of an imported commit.
#[derive(Debug)]
pub struct ImportedCommitInfo {
    pub git_sha: String,
    pub short_sha: String,
    pub atomic_hash: ContentHash,
    pub is_merge: bool,
    pub message: String,
    /// Set where the commit is represented by its original changes.
    pub squash_insert: Option<SquashInsert>,
}

/// Whether `i` is what is kept of a commit that became the change `h`.
pub open spec fn describes(i: ImportedCommitInfo, p: ParsedCommit, h: ContentHash) -> bool {
    &&& i.git_sha@ == p.git_sha@
    &&& i.short_sha@ == p.short_sha@
    &&& i.atomic_hash == h
    &&& i.message@ == message::full_text(
        p.metadata.message@,
        text::opt_text(p.metadata.description),
    )
}

fn describe(
    parsed: &ParsedCommit,
    hash: ContentHash,
    is_merge: bool,
    squash_insert: Option<SquashInsert>,
) -> (r: ImportedCommitInfo)
    ensures
        describes(r, *parsed, hash),
        r.is_merge == is_merge,
        r.squash_insert == squash_insert,
{
    ImportedCommitInfo {
        git_sha: parsed.git_sha.as_str().to_owned(),
        short_sha: parsed.short_sha.as_str().to_owned(),
        atomic_hash: hash,
        is_merge,
        message: parsed.full_message(),
        squash_insert,
    }
}

/// What is kept of a commit that was written as the change `hash`.
pub fn written_info(parsed: &ParsedCommit, hash: ContentHash) -> (r: ImportedCommitInfo)
    ensures
        describes(r, *parsed, hash),
        r.is_merge == parsed.is_merge,
        r.squash_insert is None,
{
    describe(parsed, hash, parsed.is_merge, None)
}

/// The changes that the trailers of a message name, where they name any.
pub open spec fn named_changes(m: Seq<char>) -> Option<Seq<Seq<char>>> {
    let hashes = message::changes_in(text::lines_of(m));
    if hashes.len() > 0 {
        Some(hashes)
    } else {
        None
    }
}

/// The originals that a commit names: none of a merge, and none without
/// trailers.
pub open spec fn squash_originals(p: ParsedCommit) -> Option<SquashView> {
    let m = message::full_text(p.metadata.message@, text::opt_text(p.metadata.description));
    if p.is_merge {
        None
    } else {
        match named_changes(m) {
            Some(hashes) => Some(
                SquashView {
                    original_hashes: hashes,
                    pr_number: message::pr_number_in(text::lines_of(m)),
                },
            ),
            None => None,
        }
    }
}

/// The originals that a commit names.
pub fn squash_claim(parsed: &ParsedCommit) -> (r: Option<SquashInsert>)
    ensures
        opt_squash(r) == squash_originals(*parsed),
{
    if parsed.is_merge {
        return None;
    }
    let m = parsed.full_message();
    match parse_atomic_changes_trailer(&m) {
        Some(original_hashes) => Some(
            SquashInsert { original_hashes, pr_number: parse_pr_number(&m) },
        ),
        None => None,
    }
}

/// Whether `i` is what is kept of a squash that its originals stand for.
pub open spec fn squash_described(i: ImportedCommitInfo, p: ParsedCommit) -> bool {
    &&& describes(i, p, i.atomic_hash)
    &&& !i.is_merge
    &&& i.squash_insert is Some
    &&& opt_squash(i.squash_insert) == squash_originals(p)
}

/// Tell whether this is what is kept of a squash that its originals stand
/// for.
pub fn describes_squash(info: &ImportedCommitInfo, parsed: &ParsedCommit) -> (r: bool)
    ensures
        r == squash_described(*info, *parsed),
{
    let same_claim: bool = match (&info.squash_insert, &squash_claim(parsed)) {
        (Some(s), Some(c)) => {
            let same_number: bool = match (s.pr_number, c.pr_number) {
                (Some(a), Some(b)) => a == b,
                (None, None) => true,
                _ => false,
            };
            same_number && same_texts(&s.original_hashes, &c.original_hashes)
        },
        _ => false,
    };
    same_claim && !info.is_merge && same_text(&info.git_sha, &parsed.git_sha) && same_text(
        &info.short_sha,
        &parsed.short_sha,
    ) && same_text(&info.message, &parsed.full_message())
}

/// Why a squash with a missing original is left out.
pub open spec fn missing_original_text(short_sha: Seq<char>, hash: Seq<char>) -> Seq<char> {
    "Squash "@ + short_sha + " references change "@ + hash
        + " which is not present locally; skipping (run `atomic pull` to fetch it, then re-import)."@
}

/// The hashes of all originals, or the number of the first that is missing.
pub open spec fn resolved(found: Seq<Option<ContentHash>>, from: int) -> Result<
    Seq<ContentHash>,
    int,
>
    decreases found.len() - from,
{
    if from < 0 || from >= found.len() {
        Ok(seq![])
    } else {
        match found[from] {
            None => Err(from),
            Some(h) => match resolved(found, from + 1) {
                Ok(rest) => Ok(seq![h] + rest),
                Err(k) => Err(k),
            },
        }
    }
}

/// Resolve the originals of a squash. `found` gives for each of them its
/// hash, where the text is a hash and the change is there. On the first that
/// is missing comes the warning.
pub fn resolve_originals(
    short_sha: &str,
    squash: &SquashInsert,
    found: &Vec<Option<ContentHash>>,
) -> (r: Result<Vec<ContentHash>, String>)
    requires
        squash.original_hashes@.len() == found@.len(),
    ensures
        match resolved(found@, 0) {
            Ok(hs) => r matches Ok(v) && v@ == hs,
            Err(k) => r matches Err(w) && w@ == missing_original_text(
                short_sha@,
                squash.original_hashes@[k]@,
            ),
        },
{
    let mut out: Vec<ContentHash> = Vec::new();
    let mut i: usize = 0;
    while i < found.len()
        invariant
            i <= found@.len(),
            squash.original_hashes@.len() == found@.len(),
            match resolved(found@, 0) {
                Ok(hs) => resolved(found@, i as int) matches Ok(rest) && hs == out@ + rest,
                Err(k) => resolved(found@, i as int) == Err::<Seq<ContentHash>, int>(k),
            },
        decreases found@.len() - i,
    {
        match found[i] {
            None => {
                let mut m: String = "Squash ".to_owned();
                m.append(short_sha);
                m.append(" references change ");
                m.append(&squash.original_hashes[i]);
                m.append(
                    " which is not present locally; skipping (run `atomic pull` to fetch it, then re-import).",
                );
                return Err(m);
            },
            Some(h) => {
                let ghost before = out@;
                out.push(h);
                proof {
                    if let Ok(rest) = resolved(found@, i as int + 1) {
                        assert(before + (seq![h] + rest) =~= out@ + rest);
                    }
                }
            },
        }
        i += 1;
    }
    proof {
        if let Ok(hs) = resolved(found@, 0) {
            assert(hs =~= out@);
        }
    }
    Ok(out)
}

/// Whether a path of the view holds what a file of the squash says: a
/// deleted file is gone or empty, any other with content has that content.
pub open spec fn file_matches(f: commit::ParsedFileView, held: Option<Seq<u8>>) -> bool {
    if f.operation == FileOperation::Deleted {
        held matches Some(c) ==> c.len() == 0
    } else {
        f.new_content matches Some(c) ==> held == Some(c)
    }
}

/// Whether the view holds, for every path that a squash touches, what the
/// squash says. `held` gives what the view holds for each.
pub fn squash_insert_matches_tree(files: &Vec<ParsedFile>, held: &Vec<Option<Vec<u8>>>) -> (r: bool)
    requires
        files@.len() == held@.len(),
    ensures
        r == forall|i: int|
            0 <= i < files@.len() ==> file_matches(
                #[trigger] commit::file_views(files@)[i],
                graph::opt_bytes(held@[i]),
            ),
{
    let ghost fs = commit::file_views(files@);
    let mut i: usize = 0;
    while i < files.len()
        invariant
            i <= files@.len(),
            files@.len() == held@.len(),
            fs == commit::file_views(files@),
            forall|k: int|
                0 <= k < i ==> file_matches(#[trigger] fs[k], graph::opt_bytes(held@[k])),
        decreases files@.len() - i,
    {
        let file: &ParsedFile = &files[i];
        assert(fs[i as int] == file@);
        let ok: bool = if file.operation == FileOperation::Deleted {
            match &held[i] {
                Some(c) => c.len() == 0,
                None => true,
            }
        } else {
            match &file.new_content {
                Some(c) => match &held[i] {
                    Some(h) => {
                        assert(h@ =~= c@ ==> h@ == c@);
                        same_bytes(h, c)
                    },
                    None => false,
                },
                None => true,
            }
        };
        assert(ok == file_matches(fs[i as int], graph::opt_bytes(held@[i as int])));
        if !ok {
            return false;
        }
        i += 1;
    }
    true
}

/// The changes that a failed insertion added, newest first: the order in
/// which they are taken back.
pub fn rollback_order(applied: &Vec<ContentHash>) -> (r: Vec<ContentHash>)
    ensures
        r@ == applied@.reverse(),
{
    let mut out: Vec<ContentHash> = Vec::new();
    let mut i: usize = applied.len();
    assert(out@ =~= applied@.reverse().take(0));
    while i > 0
        invariant
            i <= applied@.len(),
            out@ == applied@.reverse().take(applied@.len() - i),
        decreases i,
    {
        i -= 1;
        let ghost before = out@;
        out.push(applied[i]);
        assert(applied@.reverse()[applied@.len() - i - 1] == applied@[i as int]);
        assert(out@ =~= applied@.reverse().take(applied@.len() - i));
    }
    assert(out@ =~= applied@.reverse());
    out
}

/// The change that a squash is anchored to: the last of its originals.
pub open spec fn tip_of(hs: Seq<ContentHash>) -> ContentHash {
    if hs.len() > 0 {
        hs.last()
    } else {
        graph::no_hash()
    }
}

/// What is kept of a squash that its originals represent.
pub fn squash_info(parsed: &ParsedCommit, squash: SquashInsert, originals: &Vec<ContentHash>) -> (r:
    ImportedCommitInfo)
    ensures
        describes(r, *parsed, tip_of(originals@)),
        !r.is_merge,
        r.squash_insert == Some(squash),
{
    let tip: ContentHash = if originals.len() > 0 {
        originals[originals.len() - 1]
    } else {
        ContentHash::none()
    };
    describe(parsed, tip, false, Some(squash))
}

/// Whether a binding for a commit is known.
#[derive(Debug)]
pub enum BindingResolution {
    /// One was verified.
    Verified,
    /// One claims the commit but failed verification.
    Unresolved { detail: String },
    /// None is known.
    Cold,
}

/// Why a commit with a failed binding is refused.
pub open spec fn unresolved_text(sha: Seq<char>, detail: Seq<char>) -> Seq<char> {
    "a stored binding claims commit "@ + sha
        + " but failed verification; refusing to synthesize over a known binding claim (recoverable rejection): "@
        + detail
}

/// Whether a commit is restored from a binding. A binding that failed
/// verification is never written over.
pub fn verified_binding_for(sha: &str, resolution: &BindingResolution) -> (r: Result<
    bool,
    CliError,
>)
    ensures
        match resolution {
            BindingResolution::Verified => r == Ok::<bool, CliError>(true),
            BindingResolution::Unresolved { detail } => r matches Err(e) && e.is_git_error(
                unresolved_text(sha@, detail@),
            ),
            BindingResolution::Cold => r == Ok::<bool, CliError>(false),
        },
{
    match resolution {
        BindingResolution::Verified => Ok(true),
        BindingResolution::Unresolved { detail } => {
            let mut m: String = "a stored binding claims commit ".to_owned();
            m.append(sha);
            m.append(
                " but failed verification; refusing to synthesize over a known binding claim (recoverable rejection): ",
            );
            m.append(detail);
            Err(git_error(m))
        },
        BindingResolution::Cold => Ok(false),
    }
}

/// What the restoration of a binding did.
#[derive(Debug)]
pub struct Resurrection {
    pub binding_id: String,
    pub inserted: Vec<ContentHash>,
    pub already_present: Vec<ContentHash>,
    pub restored_raw_commit: bool,
    pub tree_verified: bool,
}

/// The changes that a restored commit consists of.
pub fn restored_closure(outcome: &Resurrection) -> (r: Vec<ContentHash>)
    ensures
        r@ == outcome.inserted@ + outcome.already_present@,
{
    let mut out: Vec<ContentHash> = Vec::new();
    let ghost want = outcome.inserted@ + outcome.already_present@;
    let mut i: usize = 0;
    while i < outcome.inserted.len()
        invariant
            i <= outcome.inserted@.len(),
            out@ == outcome.inserted@.take(i as int),
        decreases outcome.inserted@.len() - i,
    {
        out.push(outcome.inserted[i]);
        assert(out@ =~= outcome.inserted@.take(i as int + 1));
        i += 1;
    }
    assert(out@ =~= outcome.inserted@);
    let mut j: usize = 0;
    assert(out@ =~= outcome.inserted@ + outcome.already_present@.take(0));
    while j < outcome.already_present.len()
        invariant
            j <= outcome.already_present@.len(),
            out@ == outcome.inserted@ + outcome.already_present@.take(j as int),
        decreases outcome.already_present@.len() - j,
    {
        out.push(outcome.already_present[j]);
        assert(out@ =~= outcome.inserted@ + outcome.already_present@.take(j as int + 1));
        j += 1;
    }
    assert(out@ =~= want);
    out
}

/// Why a binding without changes is refused.
pub open spec fn nothing_to_restore_text(id: Seq<char>, sha: Seq<char>) -> Seq<char> {
    "binding "@ + id + " for "@ + sha + " carries no changes to resurrect"@
}

/// What is kept of a restored commit: the last change inserted, or else the
/// last that was there.
pub fn resurrected_info(parsed: &ParsedCommit, outcome: &Resurrection) -> (r: Result<
    ImportedCommitInfo,
    CliError,
>)
    ensures
        ({
            let ins = outcome.inserted@;
            let had = outcome.already_present@;
            if ins.len() + had.len() == 0 {
                r matches Err(e) && e.is_git_error(
                    nothing_to_restore_text(outcome.binding_id@, parsed.git_sha@),
                )
            } else {
                r matches Ok(i) && describes(
                    i,
                    *parsed,
                    if ins.len() > 0 {
                        ins.last()
                    } else {
                        had.last()
                    },
                ) && !i.is_merge && i.squash_insert is None
            }
        }),
{
    let n: usize = outcome.inserted.len();
    let m: usize = outcome.already_present.len();
    if n > 0 {
        Ok(describe(parsed, outcome.inserted[n - 1], false, None))
    } else if m > 0 {
        Ok(describe(parsed, outcome.already_present[m - 1], false, None))
    } else {
        let mut t: String = "binding ".to_owned();
        t.append(&outcome.binding_id);
        t.append(" for ");
        t.append(&parsed.git_sha);
        t.append(" carries no changes to resurrect");
        Err(git_error(t))
    }
}

/// What is told of a restored commit.
pub open spec fn resurrection_text(short_sha: Seq<char>, o: Resurrection) -> Seq<char> {
    "Resurrected verified binding for "@ + short_sha + " ("@ + text::decimal(o.inserted@.len())
        + " change(s) restored, "@ + text::decimal(o.already_present@.len()) + " already present"@
        + (if o.restored_raw_commit {
        ", raw commit restored"@
    } else {
        ""@
    }) + "), tree proof "@ + (if o.tree_verified {
        "verified"@
    } else {
        "MISMATCH"@
    })
}

/// Tell of a restored commit.
pub fn resurrection_notice(short_sha: &str, outcome: &Resurrection) -> (r: String)
    ensures
        r@ == resurrection_text(short_sha@, *outcome),
{
    let mut m: String = "Resurrected verified binding for ".to_owned();
    m.append(short_sha);
    m.append(" (");
    m.append(&to_decimal(outcome.inserted.len() as u64));
    m.append(" change(s) restored, ");
    m.append(&to_decimal(outcome.already_present.len() as u64));
    m.append(" already present");
    m.append(if outcome.restored_raw_commit {
        ", raw commit restored"
    } else {
        ""
    });
    m.append("), tree proof ");
    m.append(if outcome.tree_verified {
        "verified"
    } else {
        "MISMATCH"
    });
    m
}

/// What a commit is told to be after its import.
#[derive(Debug)]
pub enum CommitClassification {
    Normal,
    Merge,
    Squash { original_hashes: Vec<String>, pr_number: Option<u32> },
}

/// What a commit is told to be after its import.
pub enum ClassView {
    Normal,
    Merge,
    Squash { original_hashes: Seq<Seq<char>>, pr_number: Option<u32> },
}

impl View for CommitClassification {
    type V = ClassView;

    open spec fn view(&self) -> ClassView {
        match self {
            CommitClassification::Normal => ClassView::Normal,
            CommitClassification::Merge => ClassView::Merge,
            CommitClassification::Squash { original_hashes, pr_number } => ClassView::Squash {
                original_hashes: text::texts(original_hashes@),
                pr_number: *pr_number,
            },
        }
    }
}

/// What a message tells of a commit: a merge has several parents; a squash
/// names its originals, or has the form of one of the forges.
pub open spec fn class_of(m: Seq<char>, is_merge: bool) -> ClassView {
    if is_merge {
        ClassView::Merge
    } else {
        match named_changes(m) {
            Some(hashes) => ClassView::Squash {
                original_hashes: hashes,
                pr_number: message::pr_number_in(text::lines_of(m)),
            },
            None => match message::squash_number(text::lines_of(m)) {
                Some(n) => ClassView::Squash { original_hashes: seq![], pr_number: Some(n) },
                None => ClassView::Normal,
            },
        }
    }
}

/// Tell what an imported commit is.
pub fn classify_commit(info: &ImportedCommitInfo) -> (r: CommitClassification)
    ensures
        r@ == class_of(info.message@, info.is_merge),
{
    if info.is_merge {
        return CommitClassification::Merge;
    }
    if let Some(original_hashes) = parse_atomic_changes_trailer(&info.message) {
        return CommitClassification::Squash {
            original_hashes,
            pr_number: parse_pr_number(&info.message),
        };
    }
    match parse_squash_merge_format(&info.message) {
        Some(n) => {
            let original_hashes: Vec<String> = Vec::new();
            assert(text::texts(original_hashes@) =~= seq![]);
            CommitClassification::Squash { original_hashes, pr_number: Some(n) }
        },
        None => CommitClassification::Normal,
    }
}

/// How a tagged commit was merged.
#[derive(Clone, Copy, Debug, PartialEq, Eq, Structural)]
pub enum MergeStrategy {
    Merge,
    Squash,
}

/// The tag that gates the review of an imported commit.
#[derive(Debug)]
pub struct ReviewTag {
    pub name: String,
    pub message: String,
    pub git_sha: String,
    pub strategy: MergeStrategy,
    pub pr_number: Option<u32>,
    /// The originals, where the commit is a squash.
    pub original_hashes: Vec<String>,
    /// Whether the originals were inserted.
    pub inserted: bool,
}

/// A `ReviewTag` as a value.
#[verifier::ext_equal]
pub struct TagView {
    pub name: Seq<char>,
    pub message: Seq<char>,
    pub git_sha: Seq<char>,
    pub strategy: MergeStrategy,
    pub pr_number: Option<u32>,
    pub original_hashes: Seq<Seq<char>>,
    pub inserted: bool,
}

impl View for ReviewTag {
    type V = TagView;

    open spec fn view(&self) -> TagView {
        TagView {
            name: self.name@,
            message: self.message@,
            git_sha: self.git_sha@,
            strategy: self.strategy,
            pr_number: self.pr_number,
            original_hashes: text::texts(self.original_hashes@),
            inserted: self.inserted,
        }
    }
}

/// The view of an optional tag.
pub open spec fn opt_tag(o: Option<ReviewTag>) -> Option<TagView> {
    match o {
        Some(t) => Some(t@),
        None => None,
    }
}

/// The name of a squash's tag: by its request's number, where there is one.
pub open spec fn squash_tag_name(pr: Option<u32>, short_sha: Seq<char>) -> Seq<char> {
    match pr {
        Some(n) => "pr-"@ + text::decimal(n as nat),
        None => "squash-"@ + short_sha,
    }
}

/// The tag of a squash.
pub open spec fn squash_tag(
    sha: Seq<char>,
    short_sha: Seq<char>,
    hashes: Seq<Seq<char>>,
    pr: Option<u32>,
    inserted: bool,
) -> TagView {
    TagView {
        name: squash_tag_name(pr, short_sha),
        message: "Squash merge "@ + short_sha + (if inserted {
            " (inserted)"@
        } else {
            ""@
        }),
        git_sha: sha,
        strategy: MergeStrategy::Squash,
        pr_number: pr,
        original_hashes: hashes,
        inserted,
    }
}

/// The tag of an imported commit; none of an ordinary one.
pub open spec fn tag_of(
    sha: Seq<char>,
    short_sha: Seq<char>,
    inserted: Option<SquashView>,
    class: ClassView,
) -> Option<TagView> {
    match inserted {
        Some(s) => Some(squash_tag(sha, short_sha, s.original_hashes, s.pr_number, true)),
        None => match class {
            ClassView::Normal => None,
            ClassView::Merge => Some(
                TagView {
                    name: "merge-"@ + short_sha,
                    message: "Merge commit "@ + short_sha,
                    git_sha: sha,
                    strategy: MergeStrategy::Merge,
                    pr_number: None,
                    original_hashes: seq![],
                    inserted: false,
                },
            ),
            ClassView::Squash { original_hashes, pr_number } => Some(
                squash_tag(sha, short_sha, original_hashes, pr_number, false),
            ),
        },
    }
}

fn build_squash_tag(
    info: &ImportedCommitInfo,
    original_hashes: Vec<String>,
    pr_number: Option<u32>,
    inserted: bool,
) -> (r: ReviewTag)
    ensures
        r@ == squash_tag(
            info.git_sha@,
            info.short_sha@,
            text::texts(original_hashes@),
            pr_number,
            inserted,
        ),
{
    let name: String = match pr_number {
        Some(n) => {
            let mut s: String = "pr-".to_owned();
            s.append(&to_decimal(n as u64));
            s
        },
        None => {
            let mut s: String = "squash-".to_owned();
            s.append(&info.short_sha);
            s
        },
    };
    let mut message: String = "Squash merge ".to_owned();
    message.append(&info.short_sha);
    message.append(if inserted {
        " (inserted)"
    } else {
        ""
    });
    ReviewTag {
        name,
        message,
        git_sha: info.git_sha.as_str().to_owned(),
        strategy: MergeStrategy::Squash,
        pr_number,
        original_hashes,
        inserted,
    }
}

/// The tag of an imported commit. Where its originals were inserted, they
/// are tagged, whatever the message says.
pub fn review_tag(info: &ImportedCommitInfo) -> (r: Option<ReviewTag>)
    ensures
        opt_tag(r) == tag_of(
            info.git_sha@,
            info.short_sha@,
            opt_squash(info.squash_insert),
            class_of(info.message@, info.is_merge),
        ),
{
    if let Some(s) = &info.squash_insert {
        return Some(
            build_squash_tag(info, clone_texts(&s.original_hashes), s.pr_number, true),
        );
    }
    match classify_commit(info) {
        CommitClassification::Normal => None,
        CommitClassification::Merge => {
            let mut name: String = "merge-".to_owned();
            name.append(&info.short_sha);
            let mut message: String = "Merge commit ".to_owned();
            message.append(&info.short_sha);
            let original_hashes: Vec<String> = Vec::new();
            assert(text::texts(original_hashes@) =~= seq![]);
            Some(
                ReviewTag {
                    name,
                    message,
                    git_sha: info.git_sha.as_str().to_owned(),
                    strategy: MergeStrategy::Merge,
                    pr_number: None,
                    original_hashes,
                    inserted: false,
                },
            )
        },
        CommitClassification::Squash { original_hashes, pr_number } => Some(
            build_squash_tag(info, original_hashes, pr_number, false),
        ),
    }
}

/// How many commits of each kind were imported.
#[derive(Clone, Copy, Debug, PartialEq, Eq, Structural)]
pub struct ClassificationStats {
    pub normal: usize,
    pub merges: usize,
    pub squashes: usize,
}

/// The strategy by which an imported commit is told to be merged; none of an
/// ordinary one.
pub open spec fn strategy_of(i: ImportedCommitInfo) -> Option<MergeStrategy> {
    match tag_of(
        i.git_sha@,
        i.short_sha@,
        opt_squash(i.squash_insert),
        class_of(i.message@, i.is_merge),
    ) {
        Some(t) => Some(t.strategy),
        None => None,
    }
}

/// How many of the first `n` commits are told to be merged so.
pub open spec fn strategy_count(is: Seq<ImportedCommitInfo>, s: Option<MergeStrategy>, n: int) -> nat
    decreases n,
{
    if n <= 0 {
        0
    } else {
        strategy_count(is, s, n - 1) + if strategy_of(is[n - 1]) == s {
            1nat
        } else {
            0nat
        }
    }
}

/// Tell what the imported commits are: a tag for each merge and squash, in
/// order, and how many there are of each kind.
pub fn classify_and_tag_imports(imported: &Vec<ImportedCommitInfo>) -> (r: (
    Vec<Option<ReviewTag>>,
    ClassificationStats,
))
    ensures
        r.0@.len() == imported@.len(),
        forall|i: int|
            0 <= i < imported@.len() ==> opt_tag(#[trigger] r.0@[i]) == tag_of(
                imported@[i].git_sha@,
                imported@[i].short_sha@,
                opt_squash(imported@[i].squash_insert),
                class_of(imported@[i].message@, imported@[i].is_merge),
            ),
        r.1.normal == strategy_count(imported@, None, imported@.len() as int),
        r.1.merges == strategy_count(
            imported@,
            Some(MergeStrategy::Merge),
            imported@.len() as int,
        ),
        r.1.squashes == strategy_count(
            imported@,
            Some(MergeStrategy::Squash),
            imported@.len() as int,
        ),
{
    let mut tags: Vec<Option<ReviewTag>> = Vec::new();
    let mut normal: usize = 0;
    let mut merges: usize = 0;
    let mut squashes: usize = 0;
    let mut i: usize = 0;
    while i < imported.len()
        invariant
            i <= imported@.len(),
            normal <= i,
            merges <= i,
            squashes <= i,
            tags@.len() == i,
            forall|k: int|
                0 <= k < i ==> opt_tag(#[trigger] tags@[k]) == tag_of(
                    imported@[k].git_sha@,
                    imported@[k].short_sha@,
                    opt_squash(imported@[k].squash_insert),
                    class_of(imported@[k].message@, imported@[k].is_merge),
                ),
            normal == strategy_count(imported@, None, i as int),
            merges == strategy_count(imported@, Some(MergeStrategy::Merge), i as int),
            squashes == strategy_count(imported@, Some(MergeStrategy::Squash), i as int),
        decreases imported@.len() - i,
    {
        let tag = review_tag(&imported[i]);
        match &tag {
            None => {
                normal += 1;
            },
            Some(t) => match t.strategy {
                MergeStrategy::Merge => {
                    merges += 1;
                },
                MergeStrategy::Squash => {
                    squashes += 1;
                },
            },
        }
        tags.push(tag);
        i += 1;
    }
    (tags, ClassificationStats { normal, merges, squashes })
}

/// What an import is forecast to make of a commit.
#[derive(Clone, Copy, Debug, PartialEq, Eq, Structural)]
pub enum ForecastKind {
    /// It has no originals.
    Normal,
    /// It has several parents.
    Merge,
    /// All of its originals are there.
    SquashInsertable { count: usize, pr: Option<u32> },
    /// Some of its originals are missing.
    SquashRecordsMissing { count: usize },
}

/// Whether a presence test holds `h` to be there.
pub open spec fn found_by<F: Fn(&str) -> bool>(f: F, h: Seq<char>, there: bool) -> bool {
    exists|s: &str| s@ == h && f.ensures((s,), there)
}

/// Forecast what an import makes of a commit. `records_present` tells
/// whether a change is there.
pub fn forecast_commit_kind<F: Fn(&str) -> bool>(message: &str, is_merge: bool, records_present: F) -> (r:
    ForecastKind)
    requires
        forall|s: &str| records_present.requires((s,)),
    ensures
        ({
            let hashes = named_changes(message@);
            match r {
                ForecastKind::Merge => is_merge,
                ForecastKind::Normal => !is_merge && hashes is None,
                ForecastKind::SquashInsertable { count, pr } => !is_merge && hashes is Some
                    && count == hashes->0.len() && pr == message::pr_number_in(
                    text::lines_of(message@),
                ) && forall|i: int|
                    0 <= i < hashes->0.len() ==> found_by(
                        records_present,
                        #[trigger] hashes->0[i],
                        true,
                    ),
                ForecastKind::SquashRecordsMissing { count } => !is_merge && hashes is Some
                    && count == hashes->0.len() && exists|i: int|
                    0 <= i < hashes->0.len() && found_by(
                        records_present,
                        #[trigger] hashes->0[i],
                        false,
                    ),
            }
        }),
{
    if is_merge {
        return ForecastKind::Merge;
    }
    let hashes: Vec<String> = match parse_atomic_changes_trailer(message) {
        Some(hashes) => hashes,
        None => {
            return ForecastKind::Normal;
        },
    };
    let ghost hv = text::texts(hashes@);
    let mut i: usize = 0;
    while i < hashes.len()
        invariant
            i <= hashes@.len(),
            hv == text::texts(hashes@),
            !is_merge,
            named_changes(message@) == Some(hv),
            forall|s: &str| records_present.requires((s,)),
            forall|k: int| 0 <= k < i ==> found_by(records_present, #[trigger] hv[k], true),
        decreases hashes@.len() - i,
    {
        let h: &str = hashes[i].as_str();
        assert(hv[i as int] == h@);
        let there: bool = records_present(h);
        assert(found_by(records_present, hv[i as int], there));
        if !there {
            return ForecastKind::SquashRecordsMissing { count: hashes.len() };
        }
        i += 1;
    }
    ForecastKind::SquashInsertable { count: hashes.len(), pr: parse_pr_number(message) }
}

/// A commit whose originals are inserted is told to be a squash of exactly
/// those originals.
pub proof fn inserted_squashes_are_told_as_squashes(p: ParsedCommit, i: ImportedCommitInfo, h: ContentHash)
    requires
        describes(i, p, h),
        i.is_merge == p.is_merge,
        squash_originals(p) is Some,
    ensures
        class_of(i.message@, i.is_merge) == (ClassView::Squash {
            original_hashes: squash_originals(p)->0.original_hashes,
            pr_number: squash_originals(p)->0.pr_number,
        }),
{
}

/// What is left of a view when changes are taken back one after the other,
/// each only while it is the newest.
pub open spec fn taken_back(view: Seq<ContentHash>, order: Seq<ContentHash>) -> Seq<ContentHash>
    decreases order.len(),
{
    if order.len() == 0 {
        view
    } else if view.len() > 0 && view.last() == order[0] {
        taken_back(view.drop_last(), order.skip(1))
    } else {
        taken_back(view, order.skip(1))
    }
}

/// Taking back, in the order of the rollback, what an insertion added leaves
/// the view as it was.
pub proof fn rollback_restores_the_view(view: Seq<ContentHash>, applied: Seq<ContentHash>)
    ensures
        taken_back(view + applied, applied.reverse()) == view,
    decreases applied.len(),
{
    if applied.len() == 0 {
        assert(view + applied =~= view);
        assert(applied.reverse().len() == 0);
    } else {
        let order = applied.reverse();
        assert(order[0] == applied.last());
        assert((view + applied).last() == applied.last());
        assert((view + applied).drop_last() =~= view + applied.drop_last());
        assert(order.skip(1) =~= applied.drop_last().reverse());
        rollback_restores_the_view(view, applied.drop_last());
    }
}

/// Originals are all found or none is taken: the result holds every one in
/// turn, or names the first that is missing.
pub proof fn originals_are_found_in_turn(found: Seq<Option<ContentHash>>, from: int)
    requires
        0 <= from <= found.len(),
    ensures
        match resolved(found, from) {
            Ok(hs) => hs.len() == found.len() - from && forall|i: int|
                0 <= i < hs.len() ==> found[from + i] == Some(#[trigger] hs[i]),
            Err(k) => from <= k < found.len() && found[k] is None && forall|i: int|
                from <= i < k ==> (#[trigger] found[i]) is Some,
        },
    decreases found.len() - from,
{
    if from < found.len() {
        originals_are_found_in_turn(found, from + 1);
        if found[from] is Some {
            if let Ok(rest) = resolved(found, from + 1) {
                let hs = resolved(found, from)->Ok_0;
                assert forall|i: int| 0 <= i < hs.len() implies found[from + i] == Some(
                    #[trigger] hs[i],
                ) by {
                    if i > 0 {
                        assert(hs[i] == rest[i - 1]);
                        assert(found[from + 1 + (i - 1)] == Some(rest[i - 1]));
                    }
                }
            }
        }
    }
}

/// Tags tell what a commit was: an ordinary commit gets none, a merge the tag
/// of a merge, and a squash one that names its request and its originals;
/// commits with different short ids never share a merge tag.
pub proof fn tags_tell_the_strategy(
    sha: Seq<char>,
    short: Seq<char>,
    other: Seq<char>,
    m: Seq<char>,
    is_merge: bool,
)
    ensures
        ({
            let t = tag_of(sha, short, None, class_of(m, is_merge));
            &&& is_merge ==> (t matches Some(t) && t.strategy == MergeStrategy::Merge && t.git_sha
                == sha && t.original_hashes.len() == 0)
            &&& t is Some && t->0.strategy == MergeStrategy::Squash ==> !is_merge && (
            t->0.original_hashes.len() > 0 || t->0.pr_number is Some)
            &&& t matches Some(t) ==> t.git_sha == sha && !t.inserted
            &&& is_merge && tag_of(sha, other, None, class_of(m, is_merge))->0.name == t->0.name
                ==> other == short
        }),
{
    reveal_strlit("merge-");
    let a = "merge-"@ + short;
    let b = "merge-"@ + other;
    if a == b {
        assert(a.skip(6) =~= short);
        assert(b.skip(6) =~= other);
    }
}

/// Every imported commit is told as one thing: those told as merges, as
/// squashes and as neither add up to all of them.
pub proof fn every_commit_is_told_once(is: Seq<ImportedCommitInfo>, n: int)
    requires
        0 <= n <= is.len(),
    ensures
        strategy_count(is, None, n) + strategy_count(is, Some(MergeStrategy::Merge), n)
            + strategy_count(is, Some(MergeStrategy::Squash), n) == n,
    decreases n,
{
    if n > 0 {
        every_commit_is_told_once(is, n - 1);
        assert(strategy_of(is[n - 1]) is None || strategy_of(is[n - 1]) == Some(
            MergeStrategy::Merge,
        ) || strategy_of(is[n - 1]) == Some(MergeStrategy::Squash));
    }
}

} // verus!
