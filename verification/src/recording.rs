//! The recording of a planned commit: file by file, what is recorded, what
//! the outcome of each record means, and when the commit is complete.
use crate::commit;
use crate::commit::ParsedFile;
use crate::error::{CliError, Failure};
use crate::graph;
use crate::line_units;
use crate::line_units::clone_bytes;
use crate::paths;
use crate::paths::extract_directory;
use crate::synthesis;
use crate::synthesis::{
    baseline_for_recording, empty_deletion, empty_record, judge_record, plan_rename,
    registered_paths, required_content, EffectiveOp, FilePlan, InodeAttr, MoveBasis, RecordKind,
    RecordVerdict, RenameCandidate, RenamePlan,
};
use crate::text;
use vstd::prelude::*;

verus! {

/// What a recording waits for.
#[derive(Clone, Copy, Debug, PartialEq, Eq, Structural)]
pub enum Waiting {
    /// What is known of a renamed file.
    Location,
    /// What is known of a modified file.
    Inspection,
    /// The record of a whole replacement.
    Replaced,
    /// The record of an addition.
    Added,
    /// The record of a renamed file's deletion.
    OldDeleted,
    /// The record of a renamed file's addition.
    Readded,
    /// The record of a move.
    Moved,
    /// The record of a modification.
    Modified,
    /// The record of a deletion.
    Deleted,
    /// Nothing: the recording is over.
    Nothing,
}

/// What is to be done next.
#[derive(Debug)]
pub enum RecordAction {
    /// Find out whether the parent directory and the file at the old path
    /// are known, and what the repository holds at the new path.
    Locate { parent: String, old_path: String, path: String },
    /// Find out whether the file is known, whether it has a conflict, and
    /// what the repository holds for it.
    Inspect { path: String },
    /// Record the whole content as a replacement.
    Replace { path: String, content: Vec<u8> },
    /// Record an addition.
    Add { path: String, content: Vec<u8> },
    /// Record a move.
    Move { old_path: String, path: String, before: Vec<u8>, after: Vec<u8> },
    /// Record a modification: of a file that is known, and then as a whole
    /// where it is `forced`, or of one that is not.
    Modify { path: String, before: Vec<u8>, after: Vec<u8>, known: bool, forced: bool },
    /// Record a deletion.
    Delete { path: String },
    /// Every file is recorded.
    Finish,
    /// The commit cannot be recorded.
    Fail { error: CliError },
    /// The recording does not wait for this.
    OutOfTurn,
}

/// What a kept record is.
#[derive(Clone, Copy, Debug, PartialEq, Eq, Structural)]
pub enum KeptKind {
    /// The record of content.
    Content,
    /// A record of attribute writes alone.
    Attributes,
    /// The record of a deletion.
    Deletion,
}

/// A record that was kept.
#[derive(Debug)]
pub struct KeptRecord {
    /// The number of the file that it is for.
    pub file: usize,
    pub path: String,
    pub kind: KeptKind,
    /// The attribute writes that go with it.
    pub attrs: Vec<InodeAttr>,
}

/// A `KeptRecord` as a value.
#[verifier::ext_equal]
pub struct KeptView {
    pub file: int,
    pub path: Seq<char>,
    pub kind: KeptKind,
    pub attrs: Seq<InodeAttr>,
}

impl View for KeptRecord {
    type V = KeptView;

    open spec fn view(&self) -> KeptView {
        KeptView {
            file: self.file as int,
            path: self.path@,
            kind: self.kind,
            attrs: self.attrs@,
        }
    }
}

/// The views of a list of records.
pub open spec fn kept_views(v: Seq<KeptRecord>) -> Seq<KeptView> {
    v.map_values(|k: KeptRecord| k@)
}

/// A move that was recorded, as far as it is evidence.
#[derive(Debug)]
pub struct MoveNote {
    pub old_path: String,
    pub path: String,
    pub score: u16,
    pub basis: MoveBasis,
}

/// A recording that is under way.
#[derive(Debug)]
pub struct Recording<'a> {
    pub files: &'a Vec<ParsedFile>,
    pub plans: &'a Vec<FilePlan>,
    pub sha: String,
    /// Whether other lineages are excluded.
    pub leg: bool,
    /// The number of the file at hand.
    pub next: usize,
    pub waiting: Waiting,
    /// The bytes that the file at hand is recorded against.
    pub before: Vec<u8>,
    pub records: Vec<KeptRecord>,
    /// The paths that the commit deletes.
    pub deleted: Vec<String>,
    pub moves: Vec<MoveNote>,
    /// For each rename that is no move, every pairing that was possible.
    pub losses: Vec<Vec<RenameCandidate>>,
    /// The modified files that brought nothing new.
    pub unchanged: Vec<UnchangedNote>,
}

/// A modified file that brought nothing new.
#[derive(Debug)]
pub struct UnchangedNote {
    /// The file's number.
    pub file: usize,
    /// The bytes that it was recorded against.
    pub baseline: Vec<u8>,
}

/// An `UnchangedNote` as a value.
#[verifier::ext_equal]
pub struct UnchangedView {
    pub file: int,
    pub baseline: Seq<u8>,
}

impl View for UnchangedNote {
    type V = UnchangedView;

    open spec fn view(&self) -> UnchangedView {
        UnchangedView { file: self.file as int, baseline: self.baseline@ }
    }
}

/// The views of a list of unchanged files.
pub open spec fn unchanged_views(v: Seq<UnchangedNote>) -> Seq<UnchangedView> {
    v.map_values(|n: UnchangedNote| n@)
}

/// The first file from `from` on that is not skipped.
pub open spec fn next_file(ps: Seq<synthesis::FilePlanView>, from: int) -> int
    decreases ps.len() - from,
{
    if from < 0 || from >= ps.len() {
        ps.len() as int
    } else if ps[from].op != EffectiveOp::Skip {
        from
    } else {
        next_file(ps, from + 1)
    }
}

/// What is kept of a record, or why the commit is refused. A whole
/// replacement and a modification may leave attribute writes alone, or
/// nothing at all where the bytes agree; an addition must leave a record; a
/// move and a deletion are kept as they are.
pub open spec fn kept_of(
    w: Waiting,
    f: commit::ParsedFileView,
    p: synthesis::FilePlanView,
    k: int,
    before: Seq<u8>,
    empty: bool,
) -> Result<Option<KeptView>, Failure> {
    let content = KeptView { file: k, path: f.path, kind: KeptKind::Content, attrs: p.attrs };
    match w {
        Waiting::Replaced | Waiting::Modified => match synthesis::record_verdict(
            empty,
            p.attrs,
            before,
            synthesis::bytes_or_empty(f.new_content),
        ) {
            None => Err(
                Failure::Internal(synthesis::empty_record_text(RecordKind::Modified, f.path)),
            ),
            Some(RecordVerdict::Keep) => Ok(Some(content)),
            Some(RecordVerdict::AttributesOnly) => Ok(
                Some(KeptView { kind: KeptKind::Attributes, ..content }),
            ),
            Some(RecordVerdict::NoDelta) => Ok(None),
        },
        Waiting::Added => if empty {
            Err(Failure::Internal(synthesis::empty_record_text(RecordKind::Added, f.path)))
        } else {
            Ok(Some(content))
        },
        Waiting::Readded => if empty {
            Err(Failure::Internal(synthesis::empty_record_text(RecordKind::Renamed, f.path)))
        } else {
            Ok(Some(content))
        },
        Waiting::OldDeleted => if empty {
            Err(Failure::Internal(synthesis::empty_deletion_text(synthesis::old_path_of(f))))
        } else {
            Ok(
                Some(
                    KeptView {
                        file: k,
                        path: synthesis::old_path_of(f),
                        kind: KeptKind::Deletion,
                        attrs: seq![],
                    },
                ),
            )
        },
        Waiting::Moved => Ok(Some(content)),
        Waiting::Deleted => Ok(
            Some(
                KeptView { file: k, path: f.path, kind: KeptKind::Deletion, attrs: seq![] },
            ),
        ),
        _ => Ok(None),
    }
}

/// The content that a renamed file is added with.
pub open spec fn readded_content(f: commit::ParsedFileView) -> Option<Seq<u8>> {
    synthesis::baseline_of(f.new_content, f.old_content)
}

/// Whether a file has a record of its own among the kept ones.
pub open spec fn has_record(ks: Seq<KeptView>, k: int, kind: KeptKind) -> bool {
    exists|i: int| 0 <= i < ks.len() && (#[trigger] ks[i]).file == k && ks[i].kind == kind
}

/// Whether a file is noted as unchanged: it was recorded against these bytes.
pub open spec fn is_unchanged(us: Seq<UnchangedView>, k: int, bytes: Seq<u8>) -> bool {
    exists|i: int| 0 <= i < us.len() && (#[trigger] us[i]).file == k && us[i].baseline == bytes
}

/// Whether a file is settled: it is skipped, or its record is kept. Without
/// one, a modified file brings no attribute writes and was recorded against
/// the very bytes that the commit gives it, and a renamed file has no
/// content.
pub open spec fn settled(
    fs: Seq<commit::ParsedFileView>,
    ps: Seq<synthesis::FilePlanView>,
    ks: Seq<KeptView>,
    us: Seq<UnchangedView>,
    k: int,
) -> bool {
    let new = synthesis::bytes_or_empty(fs[k].new_content);
    match ps[k].op {
        EffectiveOp::Skip => true,
        EffectiveOp::Added => has_record(ks, k, KeptKind::Content),
        EffectiveOp::Deleted => has_record(ks, k, KeptKind::Deletion),
        EffectiveOp::Renamed => has_record(ks, k, KeptKind::Content) || readded_content(fs[k])
            is None,
        EffectiveOp::Modified => has_record(ks, k, KeptKind::Content) || has_record(
            ks,
            k,
            KeptKind::Attributes,
        ) || ps[k].attrs.len() == 0 && is_unchanged(us, k, new),
        EffectiveOp::ModifiedFullReplace => has_record(ks, k, KeptKind::Content) || has_record(
            ks,
            k,
            KeptKind::Attributes,
        ) || ps[k].attrs.len() == 0 && is_unchanged(us, k, new) && ps[k].baseline == new,
    }
}

/// Whether every file before the one numbered `n` is settled.
pub open spec fn settled_before(
    fs: Seq<commit::ParsedFileView>,
    ps: Seq<synthesis::FilePlanView>,
    ks: Seq<KeptView>,
    us: Seq<UnchangedView>,
    n: int,
) -> bool {
    forall|k: int| 0 <= k < n ==> #[trigger] settled(fs, ps, ks, us, k)
}

proof fn lemma_settled_stays(
    fs: Seq<commit::ParsedFileView>,
    ps: Seq<synthesis::FilePlanView>,
    ks: Seq<KeptView>,
    more: Seq<KeptView>,
    us: Seq<UnchangedView>,
    more_us: Seq<UnchangedView>,
    k: int,
)
    requires
        settled(fs, ps, ks, us, k),
        ks.len() <= more.len(),
        forall|i: int| 0 <= i < ks.len() ==> #[trigger] more[i] == ks[i],
        us.len() <= more_us.len(),
        forall|i: int| 0 <= i < us.len() ==> #[trigger] more_us[i] == us[i],
    ensures
        settled(fs, ps, more, more_us, k),
{
    assert forall|kind: KeptKind| has_record(ks, k, kind) implies has_record(more, k, kind) by {
        let i = choose|i: int|
            0 <= i < ks.len() && (#[trigger] ks[i]).file == k && ks[i].kind == kind;
        assert(more[i].file == k && more[i].kind == kind);
    }
    let new = synthesis::bytes_or_empty(fs[k].new_content);
    if is_unchanged(us, k, new) {
        let i = choose|i: int|
            0 <= i < us.len() && (#[trigger] us[i]).file == k && us[i].baseline == new;
        assert(more_us[i].file == k && more_us[i].baseline == new);
    }
}

/// Whether the recording `b` has opened the first file from `from` on that
/// is not skipped, and asks for what it needs.
pub open spec fn opened(b: Recording, from: int, r: RecordAction) -> bool {
    let fs = commit::file_views(b.files@);
    let ps = synthesis::plan_views(b.plans@);
    let k = next_file(ps, from);
    let f = fs[k];
    if k == ps.len() {
        b.next == k && b.waiting == Waiting::Nothing && r is Finish
    } else {
        match ps[k].op {
            EffectiveOp::Renamed => {
                &&& b.next == k && b.waiting == Waiting::Location
                &&& r matches RecordAction::Locate { parent, old_path, path } && parent@
                    == paths::parent_directory(f.path) && old_path@ == synthesis::old_path_of(f)
                    && path@ == f.path
            },
            EffectiveOp::Deleted => {
                &&& b.next == k && b.waiting == Waiting::Deleted
                &&& r matches RecordAction::Delete { path } && path@ == f.path
            },
            EffectiveOp::Skip => false,
            op => match f.new_content {
                None => {
                    &&& b.next == k && b.waiting == Waiting::Nothing
                    &&& r matches RecordAction::Fail { error } && error.is_git_error(
                        synthesis::omitted_text(b.sha@, synthesis::lacking_kind(op), f.path),
                    )
                },
                Some(c) => {
                    &&& b.next == k
                    &&& match op {
                        EffectiveOp::Added => b.waiting == Waiting::Added && (
                        r matches RecordAction::Add { path, content } && path@ == f.path
                            && content@ == c),
                        EffectiveOp::ModifiedFullReplace => b.waiting == Waiting::Replaced
                            && b.before@ == ps[k].baseline && (
                        r matches RecordAction::Replace { path, content } && path@ == f.path
                            && content@ == c),
                        _ => b.waiting == Waiting::Inspection && (
                        r matches RecordAction::Inspect { path } && path@ == f.path),
                    }
                },
            },
        }
    }
}

/// Whether two recordings are of the same commit.
pub open spec fn same_commit(a: Recording, b: Recording) -> bool {
    a.files == b.files && a.plans == b.plans && a.sha == b.sha && a.leg == b.leg
}

/// What every step from file to file keeps: the commit, and the baseline that
/// is held, unless a replacement brings its own.
pub open spec fn goes_on(a: Recording, b: Recording) -> bool {
    same_commit(a, b) && (b.waiting != Waiting::Replaced ==> b.before == a.before)
}

/// Whether a recording is over, for this reason, and is otherwise as it was.
pub open spec fn gave_up(a: Recording, b: Recording, r: RecordAction, f: Failure) -> bool {
    b == (Recording { waiting: Waiting::Nothing, ..a }) && (r matches RecordAction::Fail { error }
        && error.tells(f))
}

impl<'a> Recording<'a> {
    /// The files of the commit.
    pub open spec fn fs(&self) -> Seq<commit::ParsedFileView> {
        commit::file_views(self.files@)
    }

    /// Their plans.
    pub open spec fn ps(&self) -> Seq<synthesis::FilePlanView> {
        synthesis::plan_views(self.plans@)
    }

    /// The kept records.
    pub open spec fn ks(&self) -> Seq<KeptView> {
        kept_views(self.records@)
    }

    /// The modified files that brought nothing new.
    pub open spec fn us(&self) -> Seq<UnchangedView> {
        unchanged_views(self.unchanged@)
    }

    /// Whether the file at hand is one that what is waited for fits, and
    /// every file before it is settled.
    pub open spec fn wf(&self) -> bool {
        &&& self.files@.len() == self.plans@.len()
        &&& self.next <= self.files.len()
        &&& settled_before(self.fs(), self.ps(), self.ks(), self.us(), self.next as int)
        &&& self.waiting == Waiting::Replaced ==> self.before@ == self.ps()[self.next as int].baseline
        &&& self.waiting != Waiting::Nothing ==> self.next < self.files.len() && {
            let op = self.ps()[self.next as int].op;
            match self.waiting {
                Waiting::Location | Waiting::OldDeleted | Waiting::Readded | Waiting::Moved => op
                    == EffectiveOp::Renamed,
                Waiting::Inspection | Waiting::Modified => op == EffectiveOp::Modified,
                Waiting::Replaced => op == EffectiveOp::ModifiedFullReplace,
                Waiting::Added => op == EffectiveOp::Added,
                Waiting::Deleted => op == EffectiveOp::Deleted,
                Waiting::Nothing => true,
            }
        }
    }

    /// Start to record a planned commit.
    pub fn begin(
        files: &'a Vec<ParsedFile>,
        plans: &'a Vec<FilePlan>,
        sha: String,
        leg: bool,
    ) -> (r: (Recording<'a>, RecordAction))
        requires
            files@.len() == plans@.len(),
        ensures
            r.0.wf(),
            r.0.files == files,
            r.0.plans == plans,
            r.0.sha == sha,
            r.0.leg == leg,
            r.0.records@.len() == 0,
            r.0.moves@.len() == 0,
            r.0.losses@.len() == 0,
            r.0.unchanged@.len() == 0,
            text::texts(r.0.deleted@) == synthesis::paths_to_delete(
                commit::file_views(files@),
                synthesis::plan_views(plans@),
                plans@.len() as int,
            ),
            opened(r.0, 0, r.1),
    {
        let (_added, deleted) = registered_paths(files, plans);
        let mut run = Recording {
            files,
            plans,
            sha,
            leg,
            next: 0,
            waiting: Waiting::Nothing,
            before: Vec::new(),
            records: Vec::new(),
            deleted,
            moves: Vec::new(),
            losses: Vec::new(),
            unchanged: Vec::new(),
        };
        let action = run.open_next();
        (run, action)
    }

    /// Open the first file from the one at hand on that is not skipped.
    fn open_next(&mut self) -> (r: RecordAction)
        requires
            old(self).files@.len() == old(self).plans@.len(),
            old(self).next <= old(self).files@.len(),
            settled_before(
                old(self).fs(),
                old(self).ps(),
                old(self).ks(),
                old(self).us(),
                old(self).next as int,
            ),
        ensures
            final(self).wf(),
            goes_on(*old(self), *final(self)),
            final(self).records == old(self).records,
            final(self).deleted == old(self).deleted,
            final(self).moves == old(self).moves,
            final(self).losses == old(self).losses,
            final(self).unchanged == old(self).unchanged,
            opened(*final(self), old(self).next as int, r),
    {
        let ghost fs = self.fs();
        let ghost ps = self.ps();
        let ghost ks = self.ks();
        let ghost us = self.us();
        let ghost from = self.next as int;
        while self.next < self.plans.len() && self.plans[self.next].op == EffectiveOp::Skip
            invariant
                same_commit(*old(self), *self),
                self.before == old(self).before,
                self.records == old(self).records,
                self.deleted == old(self).deleted,
                self.moves == old(self).moves,
                self.losses == old(self).losses,
                self.unchanged == old(self).unchanged,
                self.files@.len() == self.plans@.len(),
                from <= self.next <= self.files@.len(),
                from == old(self).next,
                fs == self.fs(),
                ps == self.ps(),
                next_file(ps, self.next as int) == next_file(ps, from),
                settled_before(fs, ps, ks, us, self.next as int),
                ks == self.ks(),
                us == self.us(),
            decreases self.files@.len() - self.next,
        {
            assert(ps[self.next as int] == self.plans@[self.next as int]@);
            assert(settled(fs, ps, ks, us, self.next as int));
            self.next = self.next + 1;
        }
        if self.next >= self.plans.len() {
            self.waiting = Waiting::Nothing;
            return RecordAction::Finish;
        }
        let k: usize = self.next;
        assert(ps[k as int] == self.plans@[k as int]@);
        assert(fs[k as int] == self.files@[k as int]@);
        let file: &ParsedFile = &self.files[k];
        let plan: &FilePlan = &self.plans[k];
        match plan.op {
            EffectiveOp::Renamed => {
                let old_path: String = match &file.old_path {
                    Some(p) => p.as_str().to_owned(),
                    None => file.path.as_str().to_owned(),
                };
                self.waiting = Waiting::Location;
                RecordAction::Locate {
                    parent: extract_directory(&file.path),
                    old_path,
                    path: file.path.as_str().to_owned(),
                }
            },
            EffectiveOp::Deleted => {
                self.waiting = Waiting::Deleted;
                RecordAction::Delete { path: file.path.as_str().to_owned() }
            },
            EffectiveOp::Added => match required_content(&self.sha, RecordKind::Added, file) {
                Ok(content) => {
                    self.waiting = Waiting::Added;
                    RecordAction::Add { path: file.path.as_str().to_owned(), content }
                },
                Err(error) => {
                    self.waiting = Waiting::Nothing;
                    RecordAction::Fail { error }
                },
            },
            EffectiveOp::ModifiedFullReplace => match required_content(
                &self.sha,
                RecordKind::Modified,
                file,
            ) {
                Ok(content) => {
                    self.before = clone_bytes(&plan.baseline);
                    self.waiting = Waiting::Replaced;
                    RecordAction::Replace { path: file.path.as_str().to_owned(), content }
                },
                Err(error) => {
                    self.waiting = Waiting::Nothing;
                    RecordAction::Fail { error }
                },
            },
            EffectiveOp::Modified => match required_content(&self.sha, RecordKind::Modified, file) {
                Ok(_content) => {
                    self.waiting = Waiting::Inspection;
                    RecordAction::Inspect { path: file.path.as_str().to_owned() }
                },
                Err(error) => {
                    self.waiting = Waiting::Nothing;
                    RecordAction::Fail { error }
                },
            },
            EffectiveOp::Skip => {
                self.waiting = Waiting::Nothing;
                RecordAction::Finish
            },
        }
    }

    /// What is known of a renamed file: whether its new directory and its
    /// old path are known, and what the repository holds for it. It becomes a
    /// move, or else a deletion and an addition.
    pub fn located(&mut self, parent_known: bool, old_known: bool, held: &Option<Vec<u8>>) -> (r:
        RecordAction)
        requires
            old(self).wf(),
        ensures
            final(self).wf(),
            goes_on(*old(self), *final(self)),
            final(self).records == old(self).records,
            final(self).unchanged == old(self).unchanged,
            if old(self).waiting != Waiting::Location {
                *final(self) == *old(self) && r is OutOfTurn
            } else {
                let fs = old(self).fs();
                let ps = old(self).ps();
                let k = old(self).next as int;
                let f = fs[k];
                let new = synthesis::bytes_or_empty(f.new_content);
                let old_path = synthesis::old_path_of(f);
                let root = paths::parent_directory(f.path).len() == 0;
                if (root || parent_known) && old_known && !synthesis::pairing_ambiguous(fs, ps, k) {
                    &&& final(self).next == k && final(self).waiting == Waiting::Moved
                    &&& final(self).moves@.len() == old(self).moves@.len() + 1
                    &&& final(self).moves@.drop_last() == old(self).moves@
                    &&& final(self).moves@.last().old_path@ == old_path
                    &&& final(self).moves@.last().path@ == f.path
                    &&& final(self).moves@.last().score == line_units::similarity(
                        ps[k].baseline,
                        new,
                    )
                    &&& final(self).moves@.last().basis == synthesis::basis_of(
                        ps[k].baseline,
                        new,
                    )
                    &&& final(self).deleted == old(self).deleted && final(self).losses == old(
                        self,
                    ).losses
                    &&& r matches RecordAction::Move { old_path: o, path, before, after } && o@
                        == old_path && path@ == f.path && before@ == synthesis::recording_baseline(
                        old(self).leg,
                        ps[k].baseline,
                        graph::opt_bytes(*held),
                        f.old_content,
                    ) && after@ == new
                } else if old_path != f.path {
                    &&& final(self).next == k && final(self).waiting == Waiting::OldDeleted
                    &&& final(self).moves == old(self).moves
                    &&& text::texts(final(self).deleted@) == text::texts(old(self).deleted@).push(
                        old_path,
                    )
                    &&& final(self).losses@.len() == old(self).losses@.len() + 1
                    &&& final(self).losses@.drop_last() == old(self).losses@
                    &&& synthesis::candidate_views(final(self).losses@.last()@)
                        == synthesis::rename_candidates(fs, ps, k)
                    &&& r matches RecordAction::Delete { path } && path@ == old_path
                } else {
                    &&& final(self).moves == old(self).moves && final(self).deleted == old(
                        self,
                    ).deleted && final(self).losses == old(self).losses
                    &&& match readded_content(f) {
                        Some(c) => final(self).next == k && final(self).waiting == Waiting::Readded
                            && (r matches RecordAction::Add { path, content } && path@ == f.path
                            && content@ == c),
                        None => opened(*final(self), k + 1, r),
                    }
                }
            },
    {
        if self.waiting != Waiting::Location {
            return RecordAction::OutOfTurn;
        }
        let k: usize = self.next;
        let ghost fs = self.fs();
        let ghost ps = self.ps();
        assert(ps[k as int] == self.plans@[k as int]@);
        assert(fs[k as int] == self.files@[k as int]@);
        let file: &ParsedFile = &self.files[k];
        let parent = extract_directory(&file.path);
        let reachable: bool = parent.as_str().is_empty() || parent_known;
        match plan_rename(self.files, self.plans, k, reachable, old_known) {
            RenamePlan::Move { old_path, score, basis } => {
                let before = baseline_for_recording(self.leg, &self.plans[k], held, file);
                let after: Vec<u8> = match &file.new_content {
                    Some(c) => clone_bytes(c),
                    None => Vec::new(),
                };
                assert(after@ =~= synthesis::bytes_or_empty(fs[k as int].new_content));
                let path: String = file.path.as_str().to_owned();
                let ghost moves = self.moves@;
                self.moves.push(
                    MoveNote {
                        old_path: old_path.as_str().to_owned(),
                        path: file.path.as_str().to_owned(),
                        score,
                        basis,
                    },
                );
                assert(self.moves@.drop_last() =~= moves);
                self.waiting = Waiting::Moved;
                RecordAction::Move { old_path, path, before, after }
            },
            RenamePlan::Replace { deleted: Some(old_path), candidates, content: _ } => {
                let ghost d = text::texts(self.deleted@);
                self.deleted.push(old_path.as_str().to_owned());
                assert(text::texts(self.deleted@) =~= d.push(old_path@));
                let ghost losses = self.losses@;
                self.losses.push(candidates);
                assert(self.losses@.drop_last() =~= losses);
                self.waiting = Waiting::OldDeleted;
                RecordAction::Delete { path: old_path }
            },
            RenamePlan::Replace { deleted: None, candidates: _, content } => {
                self.readd(content)
            },
        }
    }

    /// Add a renamed file with this content, or leave it where there is
    /// none.
    fn readd(&mut self, content: Option<Vec<u8>>) -> (r: RecordAction)
        requires
            old(self).wf(),
            old(self).waiting == Waiting::Location || old(self).waiting == Waiting::OldDeleted,
            graph::opt_bytes(content) == readded_content(old(self).fs()[old(self).next as int]),
        ensures
            final(self).wf(),
            goes_on(*old(self), *final(self)),
            final(self).records == old(self).records,
            final(self).deleted == old(self).deleted,
            final(self).moves == old(self).moves,
            final(self).losses == old(self).losses,
            final(self).unchanged == old(self).unchanged,
            match readded_content(old(self).fs()[old(self).next as int]) {
                Some(c) => final(self).next == old(self).next && final(self).waiting
                    == Waiting::Readded && (r matches RecordAction::Add { path, content } && path@
                    == old(self).fs()[old(self).next as int].path && content@ == c),
                None => opened(*final(self), old(self).next + 1, r),
            },
    {
        assert(self.fs()[self.next as int] == self.files@[self.next as int]@);
        match content {
            Some(content) => {
                self.waiting = Waiting::Readded;
                RecordAction::Add { path: self.files[self.next].path.as_str().to_owned(), content }
            },
            None => {
                assert(settled(self.fs(), self.ps(), self.ks(), self.us(), self.next as int));
                self.next = self.next + 1;
                self.open_next()
            },
        }
    }

    /// What is known of a modified file: whether it is known at all, whether
    /// it has a conflict in the target view, and what the repository holds
    /// for it. A conflict is resolved as a whole, except while other
    /// lineages are excluded.
    pub fn inspected(&mut self, known: bool, conflicted: bool, held: &Option<Vec<u8>>) -> (r:
        RecordAction)
        requires
            old(self).wf(),
        ensures
            final(self).wf(),
            if old(self).waiting != Waiting::Inspection {
                *final(self) == *old(self) && r is OutOfTurn
            } else {
                let k = old(self).next as int;
                let f = old(self).fs()[k];
                let from = synthesis::recording_baseline(
                    old(self).leg,
                    old(self).ps()[k].baseline,
                    graph::opt_bytes(*held),
                    f.old_content,
                );
                &&& *final(self) == Recording {
                    waiting: Waiting::Modified,
                    before: final(self).before,
                    ..*old(self)
                }
                &&& final(self).before@ == from
                &&& r matches RecordAction::Modify { path, before, after, known: n, forced }
                    && path@ == f.path && before@ == from && after@ == synthesis::bytes_or_empty(
                    f.new_content,
                ) && n == known && forced == (known && conflicted && !old(self).leg)
            },
    {
        if self.waiting != Waiting::Inspection {
            return RecordAction::OutOfTurn;
        }
        let k: usize = self.next;
        let ghost fs = self.fs();
        assert(self.ps()[k as int] == self.plans@[k as int]@);
        assert(fs[k as int] == self.files@[k as int]@);
        let file: &ParsedFile = &self.files[k];
        let before = baseline_for_recording(self.leg, &self.plans[k], held, file);
        let after: Vec<u8> = match &file.new_content {
            Some(c) => clone_bytes(c),
            None => Vec::new(),
        };
        assert(after@ =~= synthesis::bytes_or_empty(fs[k as int].new_content));
        let path: String = file.path.as_str().to_owned();
        self.before = clone_bytes(&before);
        self.waiting = Waiting::Modified;
        RecordAction::Modify {
            path,
            before,
            after,
            known,
            forced: known && conflicted && !self.leg,
        }
    }

    /// What is kept of the record that was waited for.
    fn judge(&self, empty: bool) -> (r: Result<Option<KeptRecord>, CliError>)
        requires
            self.wf(),
            self.waiting != Waiting::Nothing,
        ensures
            match kept_of(
                self.waiting,
                self.fs()[self.next as int],
                self.ps()[self.next as int],
                self.next as int,
                self.before@,
                empty,
            ) {
                Ok(None) => r matches Ok(o) && o is None,
                Ok(Some(v)) => r matches Ok(Some(k)) && k@ == v,
                Err(f) => r matches Err(e) && e.tells(f),
            },
    {
        let k: usize = self.next;
        assert(self.ps()[k as int] == self.plans@[k as int]@);
        assert(self.fs()[k as int] == self.files@[k as int]@);
        let file: &ParsedFile = &self.files[k];
        let plan: &FilePlan = &self.plans[k];
        match self.waiting {
            Waiting::Replaced | Waiting::Modified => {
                let after: Vec<u8> = match &file.new_content {
                    Some(c) => clone_bytes(c),
                    None => Vec::new(),
                };
                assert(after@ =~= synthesis::bytes_or_empty(file@.new_content));
                match judge_record(empty, &plan.attrs, &self.before, &after, &file.path) {
                    Ok(RecordVerdict::Keep) => Ok(
                        Some(self.keep(&file.path, KeptKind::Content, true)),
                    ),
                    Ok(RecordVerdict::AttributesOnly) => Ok(
                        Some(self.keep(&file.path, KeptKind::Attributes, true)),
                    ),
                    Ok(RecordVerdict::NoDelta) => Ok(None),
                    Err(e) => Err(e),
                }
            },
            Waiting::Added => if empty {
                Err(empty_record(RecordKind::Added, &file.path))
            } else {
                Ok(Some(self.keep(&file.path, KeptKind::Content, true)))
            },
            Waiting::Readded => if empty {
                Err(empty_record(RecordKind::Renamed, &file.path))
            } else {
                Ok(Some(self.keep(&file.path, KeptKind::Content, true)))
            },
            Waiting::OldDeleted => {
                let old_path: String = match &file.old_path {
                    Some(p) => p.as_str().to_owned(),
                    None => file.path.as_str().to_owned(),
                };
                if empty {
                    Err(empty_deletion(&old_path))
                } else {
                    Ok(Some(self.keep(&old_path, KeptKind::Deletion, false)))
                }
            },
            Waiting::Moved => Ok(Some(self.keep(&file.path, KeptKind::Content, true))),
            Waiting::Deleted => Ok(Some(self.keep(&file.path, KeptKind::Deletion, false))),
            _ => Ok(None),
        }
    }

    fn keep(&self, path: &str, kind: KeptKind, with_attrs: bool) -> (r: KeptRecord)
        requires
            self.wf(),
            self.next < self.files@.len(),
        ensures
            r@ == (KeptView {
                file: self.next as int,
                path: path@,
                kind,
                attrs: if with_attrs {
                    self.ps()[self.next as int].attrs
                } else {
                    seq![]
                },
            }),
    {
        assert(self.ps()[self.next as int] == self.plans@[self.next as int]@);
        let attrs: Vec<InodeAttr> = if with_attrs {
            copy_attrs(&self.plans[self.next].attrs)
        } else {
            Vec::new()
        };
        assert(!with_attrs ==> attrs@ =~= seq![]);
        KeptRecord { file: self.next, path: path.to_owned(), kind, attrs }
    }

    /// The record that was waited for was made; `empty` tells whether it
    /// holds nothing. What is kept of it is kept, and the next file is
    /// opened.
    pub fn recorded(&mut self, empty: bool) -> (r: RecordAction)
        requires
            old(self).wf(),
        ensures
            final(self).wf(),
            goes_on(*old(self), *final(self)),
            final(self).deleted == old(self).deleted,
            final(self).moves == old(self).moves,
            final(self).losses == old(self).losses,
            if old(self).waiting == Waiting::Nothing || old(self).waiting == Waiting::Location
                || old(self).waiting == Waiting::Inspection {
                *final(self) == *old(self) && r is OutOfTurn
            } else {
                let k = old(self).next as int;
                let f = old(self).fs()[k];
                match kept_of(
                    old(self).waiting,
                    f,
                    old(self).ps()[k],
                    k,
                    old(self).before@,
                    empty,
                ) {
                    Err(e) => gave_up(*old(self), *final(self), r, e),
                    Ok(kept) => {
                        &&& final(self).ks() == match kept {
                            Some(v) => old(self).ks().push(v),
                            None => old(self).ks(),
                        }
                        &&& final(self).us() == if kept is None {
                            old(self).us().push(
                                UnchangedView { file: k, baseline: old(self).before@ },
                            )
                        } else {
                            old(self).us()
                        }
                        &&& if old(self).waiting == Waiting::OldDeleted && readded_content(f)
                            is Some {
                            final(self).next == k && final(self).waiting == Waiting::Readded && (
                            r matches RecordAction::Add { path, content } && path@ == f.path
                                && content@ == readded_content(f)->0)
                        } else {
                            opened(*final(self), k + 1, r)
                        }
                    },
                }
            },
    {
        if self.waiting == Waiting::Nothing || self.waiting == Waiting::Location || self.waiting
            == Waiting::Inspection {
            return RecordAction::OutOfTurn;
        }
        let k: usize = self.next;
        let ghost fs = self.fs();
        let ghost ps = self.ps();
        let ghost ks = self.ks();
        let ghost us = self.us();
        assert(ps[k as int] == self.plans@[k as int]@);
        assert(fs[k as int] == self.files@[k as int]@);
        let kept = match self.judge(empty) {
            Ok(kept) => kept,
            Err(error) => {
                self.waiting = Waiting::Nothing;
                return RecordAction::Fail { error };
            },
        };
        if let Some(record) = kept {
            let ghost rv = record@;
            self.records.push(record);
            assert(self.ks() =~= ks.push(rv));
            assert(self.ks()[ks.len() as int] == rv);
        } else {
            let note = UnchangedNote { file: k, baseline: clone_bytes(&self.before) };
            let ghost nv = note@;
            self.unchanged.push(note);
            assert(self.us() =~= us.push(nv));
            assert(self.us()[us.len() as int] == nv);
        }
        let ghost more = self.ks();
        let ghost more_us = self.us();
        assert forall|j: int| 0 <= j < k implies #[trigger] settled(fs, ps, more, more_us, j) by {
            assert(settled(fs, ps, ks, us, j));
            lemma_settled_stays(fs, ps, ks, more, us, more_us, j);
        }
        if self.waiting == Waiting::OldDeleted {
            let file: &ParsedFile = &self.files[k];
            let content: Option<Vec<u8>> = match &file.new_content {
                Some(c) => Some(clone_bytes(c)),
                None => match &file.old_content {
                    Some(c) => Some(clone_bytes(c)),
                    None => None,
                },
            };
            assert(graph::opt_bytes(content) == readded_content(fs[k as int]));
            return self.readd(content);
        }
        assert(settled(fs, ps, more, more_us, k as int));
        self.next = self.next + 1;
        self.open_next()
    }
}

fn copy_attrs(v: &Vec<InodeAttr>) -> (r: Vec<InodeAttr>)
    ensures
        r@ == v@,
{
    let mut out: Vec<InodeAttr> = Vec::new();
    let mut i: usize = 0;
    while i < v.len()
        invariant
            i <= v@.len(),
            out@ == v@.take(i as int),
        decreases v@.len() - i,
    {
        out.push(v[i]);
        assert(out@ =~= v@.take(i as int + 1));
        i += 1;
    }
    assert(v@.take(i as int) =~= v@);
    out
}

/// A commit that is recorded to its end leaves nothing out: every file is
/// skipped, or has a record of its own; one that has none brings no
/// attribute writes and no other bytes than it was recorded against, or has
/// no content to bring.
pub proof fn nothing_is_left_unrecorded(run: Recording, k: int)
    requires
        run.wf(),
        run.next == run.files@.len(),
        0 <= k < run.files@.len(),
    ensures
        settled(run.fs(), run.ps(), run.ks(), run.us(), k),
{
}

/// Only skipped files are passed over: a recording goes on to the first file
/// for which something is to be done.
pub proof fn only_skipped_files_are_passed_over(
    ps: Seq<synthesis::FilePlanView>,
    from: int,
    i: int,
)
    requires
        0 <= from <= ps.len(),
    ensures
        from <= next_file(ps, from) <= ps.len(),
        from <= i < next_file(ps, from) ==> ps[i].op == EffectiveOp::Skip,
        next_file(ps, from) < ps.len() ==> ps[next_file(ps, from)].op != EffectiveOp::Skip,
    decreases ps.len() - from,
{
    if from < ps.len() && ps[from].op == EffectiveOp::Skip {
        only_skipped_files_are_passed_over(ps, from + 1, i);
    }
}

/// A record is never dropped for nothing: what is kept of a file names it,
/// and nothing is kept only where the record is empty, no attribute is
/// written and the bytes stay the same.
pub proof fn records_are_dropped_only_without_change(
    w: Waiting,
    f: commit::ParsedFileView,
    p: synthesis::FilePlanView,
    k: int,
    before: Seq<u8>,
    empty: bool,
)
    requires
        w == Waiting::Replaced || w == Waiting::Modified || w == Waiting::Added || w
            == Waiting::Readded || w == Waiting::OldDeleted || w == Waiting::Moved || w
            == Waiting::Deleted,
    ensures
        match kept_of(w, f, p, k, before, empty) {
            Ok(Some(v)) => {
                &&& v.file == k
                &&& v.path == (if w == Waiting::OldDeleted {
                    synthesis::old_path_of(f)
                } else {
                    f.path
                })
                &&& v.kind == KeptKind::Deletion <==> w == Waiting::OldDeleted || w
                    == Waiting::Deleted
                &&& v.kind == KeptKind::Deletion || v.attrs == p.attrs
            },
            Ok(None) => {
                &&& w == Waiting::Replaced || w == Waiting::Modified
                &&& empty
                &&& p.attrs.len() == 0
                &&& before == synthesis::bytes_or_empty(f.new_content)
            },
            Err(_) => empty,
        },
{
}

} // verus!
