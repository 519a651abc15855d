//! The run of a merge: its parents united, every path led from the union to
//! the merge's tree, and the records of that published as one resolution.
use crate::commit;
use crate::commit::{ParsedCommit, ParsedFile};
use crate::error::CliError;
use crate::graph;
use crate::graph::ContentHash;
use crate::ledger::clone_hashes;
use crate::merge;
use crate::merge::{
    are_parents, merge_added_paths, merge_parent_closure, merge_step, require_deletion_binding,
    require_merge_record, resolution_origin, GitResolutionOrigin, MergeRecord, MergeStep,
    ParentClosure,
};
use crate::oid;
use crate::recording;
use crate::recording::{KeptKind, KeptRecord};
use crate::synthesis;
use crate::text;
use vstd::prelude::*;

verus! {

/// How far a resolution has come: what it waits for.
#[derive(Clone, Copy, Debug, PartialEq, Eq, Structural)]
pub enum ResolutionStage {
    /// The closures of the parents.
    Parents,
    /// The union of the closures in the target view.
    Union,
    /// What the union holds for every path.
    Baselines,
    /// The registration of the added paths.
    Registration,
    /// What the union holds for the path at hand.
    Baseline,
    /// The record of a resolution.
    Resolution,
    /// The record of an addition.
    Addition,
    /// Whether the file of a deletion is known.
    Binding,
    /// The record of a deletion.
    Deletion,
    /// The publication of the records.
    Publication,
    /// The cleared index of the deleted paths.
    Cleanup,
    /// Nothing: the run is over.
    Done,
}

/// What is to be done next.
#[derive(Debug)]
pub enum ResolutionAction {
    /// Read the imported change and the closure of every parent.
    ReadParents,
    /// Refer to all of these changes in the target view.
    EnsureUnion { closure: Vec<ContentHash> },
    /// Read what the union holds for every path of the commit.
    ReadBaselines,
    /// Register these paths.
    Register { paths: Vec<String> },
    /// Read what the union holds for this path.
    ReadBaseline { path: String },
    /// Record the whole content of a path as a resolution.
    Resolve { path: String, content: Vec<u8> },
    /// Record an addition.
    Add { path: String, content: Vec<u8> },
    /// Find the file of this path.
    Bind { path: String },
    /// Record a deletion.
    Delete { path: String },
    /// Publish what was recorded.
    Publish,
    /// Clear the index of these paths.
    Unindex { paths: Vec<String> },
    /// The run is over.
    Finish,
    /// The run failed.
    Fail { error: CliError },
    /// The run does not wait for this.
    OutOfTurn,
}

/// A resolution that is under way.
#[derive(Debug)]
pub struct ResolutionRun<'a> {
    pub parsed: &'a ParsedCommit,
    /// Whether the working copy is left alone.
    pub preserve: bool,
    pub stage: ResolutionStage,
    /// The union of the parents' closures.
    pub closure: Vec<ContentHash>,
    pub origin: Option<GitResolutionOrigin>,
    /// The number of the file at hand.
    pub next: usize,
    /// What the union holds for the files so far.
    pub unions: Vec<Option<Vec<u8>>>,
    pub records: Vec<KeptRecord>,
    /// The paths that the merge deletes.
    pub deleted: Vec<String>,
}

/// Whether a file stands as the merge has it: its step from the union is
/// recorded, where it needs one.
pub open spec fn resolved(
    fs: Seq<commit::ParsedFileView>,
    unions: Seq<Option<Vec<u8>>>,
    ks: Seq<recording::KeptView>,
    deleted: Seq<Seq<char>>,
    k: int,
) -> bool {
    match merge::merge_step_of(fs[k].new_content, graph::opt_bytes(unions[k])) {
        merge::MergeStepView::Nothing => true,
        merge::MergeStepView::Delete => recording::has_record(ks, k, KeptKind::Deletion)
            && deleted.contains(fs[k].path),
        _ => recording::has_record(ks, k, KeptKind::Content),
    }
}

/// Whether every file before the one numbered `n` stands as the merge has
/// it.
pub open spec fn resolved_before(
    fs: Seq<commit::ParsedFileView>,
    unions: Seq<Option<Vec<u8>>>,
    ks: Seq<recording::KeptView>,
    deleted: Seq<Seq<char>>,
    n: int,
) -> bool {
    forall|k: int| 0 <= k < n ==> #[trigger] resolved(fs, unions, ks, deleted, k)
}

proof fn lemma_resolved_stays(
    fs: Seq<commit::ParsedFileView>,
    unions: Seq<Option<Vec<u8>>>,
    more_unions: Seq<Option<Vec<u8>>>,
    ks: Seq<recording::KeptView>,
    more: Seq<recording::KeptView>,
    deleted: Seq<Seq<char>>,
    more_deleted: Seq<Seq<char>>,
    n: int,
)
    requires
        resolved_before(fs, unions, ks, deleted, n),
        n <= unions.len() <= more_unions.len(),
        forall|i: int| 0 <= i < n ==> #[trigger] more_unions[i] == unions[i],
        ks.len() <= more.len(),
        forall|i: int| 0 <= i < ks.len() ==> #[trigger] more[i] == ks[i],
        deleted.len() <= more_deleted.len(),
        forall|i: int| 0 <= i < deleted.len() ==> #[trigger] more_deleted[i] == deleted[i],
    ensures
        resolved_before(fs, more_unions, more, more_deleted, n),
{
    assert forall|k: int| 0 <= k < n implies #[trigger] resolved(
        fs,
        more_unions,
        more,
        more_deleted,
        k,
    ) by {
        assert(resolved(fs, unions, ks, deleted, k));
        assert(more_unions[k] == unions[k]);
        assert forall|kind: KeptKind| recording::has_record(ks, k, kind) implies
            recording::has_record(more, k, kind) by {
            let i = choose|i: int|
                0 <= i < ks.len() && (#[trigger] ks[i]).file == k && ks[i].kind == kind;
            assert(more[i].file == k && more[i].kind == kind);
        }
        if deleted.contains(fs[k].path) {
            let i = choose|i: int| 0 <= i < deleted.len() && deleted[i] == fs[k].path;
            assert(more_deleted[i] == fs[k].path);
        }
    }
}

/// Whether two runs are of the same merge.
pub open spec fn same_merge(a: ResolutionRun, b: ResolutionRun) -> bool {
    a.parsed == b.parsed && a.preserve == b.preserve
}

/// Whether only the stage changed from `a` to `b`.
pub open spec fn moved(a: ResolutionRun, b: ResolutionRun, stage: ResolutionStage) -> bool {
    b == ResolutionRun { stage, ..a }
}

/// Whether the run `b` has taken up the file numbered `from`, or publishes
/// where there is none left.
pub open spec fn taken_up(b: ResolutionRun, from: int, r: ResolutionAction) -> bool {
    &&& b.next == from
    &&& if from == b.parsed.files@.len() {
        b.stage == ResolutionStage::Publication && r is Publish
    } else {
        b.stage == ResolutionStage::Baseline && (r matches ResolutionAction::ReadBaseline { path }
            && path@ == b.fs()[from].path)
    }
}

/// The record that a run waits for, as its error tells of it.
pub open spec fn awaited(s: ResolutionStage) -> Option<(MergeRecord, KeptKind)> {
    match s {
        ResolutionStage::Resolution => Some((MergeRecord::Resolution, KeptKind::Content)),
        ResolutionStage::Addition => Some((MergeRecord::Addition, KeptKind::Content)),
        ResolutionStage::Deletion => Some((MergeRecord::Deletion, KeptKind::Deletion)),
        _ => None,
    }
}

impl<'a> ResolutionRun<'a> {
    /// The files of the merge.
    pub open spec fn fs(&self) -> Seq<commit::ParsedFileView> {
        commit::file_views(self.parsed.files@)
    }

    /// The kept records.
    pub open spec fn ks(&self) -> Seq<recording::KeptView> {
        recording::kept_views(self.records@)
    }

    /// What leads the file at hand to the merge's tree.
    pub open spec fn step(&self) -> merge::MergeStepView {
        merge::merge_step_of(
            self.fs()[self.next as int].new_content,
            graph::opt_bytes(self.unions@[self.next as int]),
        )
    }

    /// Whether every file before the one at hand stands as the merge has it,
    /// and what is waited for fits the file at hand.
    pub open spec fn wf(&self) -> bool {
        &&& self.next <= self.parsed.files.len()
        &&& resolved_before(
            self.fs(),
            self.unions@,
            self.ks(),
            text::texts(self.deleted@),
            self.next as int,
        )
        &&& match self.stage {
            ResolutionStage::Parents | ResolutionStage::Union | ResolutionStage::Baselines
            | ResolutionStage::Registration => self.next == 0 && self.unions@.len() == 0,
            ResolutionStage::Baseline => self.next < self.parsed.files.len()
                && self.unions@.len() == self.next,
            ResolutionStage::Publication | ResolutionStage::Cleanup => self.next
                == self.parsed.files.len() && self.unions@.len() == self.next,
            ResolutionStage::Done => self.next <= self.unions@.len(),
            ResolutionStage::Resolution => self.at_a_file() && self.step() is Resolve,
            ResolutionStage::Addition => self.at_a_file() && self.step() is Add,
            ResolutionStage::Binding | ResolutionStage::Deletion => self.at_a_file()
                && self.step() is Delete,
        }
    }

    /// Whether what the union holds for the file at hand is known.
    pub open spec fn at_a_file(&self) -> bool {
        self.next < self.parsed.files.len() && self.unions@.len() == self.next + 1
    }

    /// Start to resolve a merge.
    pub fn begin(parsed: &'a ParsedCommit, preserve: bool) -> (r: (
        ResolutionRun<'a>,
        ResolutionAction,
    ))
        ensures
            r.0.wf(),
            r.0.parsed == parsed,
            r.0.preserve == preserve,
            r.0.stage == ResolutionStage::Parents,
            r.0.closure@.len() == 0,
            r.0.origin is None,
            r.0.next == 0,
            r.0.unions@.len() == 0,
            r.0.records@.len() == 0,
            r.0.deleted@.len() == 0,
            r.1 is ReadParents,
    {
        let run = ResolutionRun {
            parsed,
            preserve,
            stage: ResolutionStage::Parents,
            closure: Vec::new(),
            origin: None,
            next: 0,
            unions: Vec::new(),
            records: Vec::new(),
            deleted: Vec::new(),
        };
        (run, ResolutionAction::ReadParents)
    }

    fn fail(&mut self, error: CliError) -> (r: ResolutionAction)
        requires
            old(self).wf(),
        ensures
            final(self).wf(),
            *final(self) == (ResolutionRun { stage: ResolutionStage::Done, ..*old(self) }),
            r == (ResolutionAction::Fail { error }),
    {
        self.stage = ResolutionStage::Done;
        ResolutionAction::Fail { error }
    }

    /// What was to be done outside failed: the run is over.
    pub fn failed(&mut self, error: CliError) -> (r: ResolutionAction)
        requires
            old(self).wf(),
        ensures
            final(self).wf(),
            if old(self).stage == ResolutionStage::Done {
                *final(self) == *old(self) && r is OutOfTurn
            } else {
                *final(self) == (ResolutionRun { stage: ResolutionStage::Done, ..*old(self) })
                    && r == (ResolutionAction::Fail { error })
            },
    {
        if self.stage == ResolutionStage::Done {
            return ResolutionAction::OutOfTurn;
        }
        self.fail(error)
    }

    /// Take up the file at hand, or publish where there is none left.
    fn take_up(&mut self) -> (r: ResolutionAction)
        requires
            old(self).next <= old(self).parsed.files.len(),
            old(self).unions@.len() == old(self).next,
            resolved_before(
                old(self).fs(),
                old(self).unions@,
                old(self).ks(),
                text::texts(old(self).deleted@),
                old(self).next as int,
            ),
        ensures
            final(self).wf(),
            *final(self) == (ResolutionRun { stage: final(self).stage, ..*old(self) }),
            taken_up(*final(self), old(self).next as int, r),
    {
        if self.next >= self.parsed.files.len() {
            self.stage = ResolutionStage::Publication;
            return ResolutionAction::Publish;
        }
        let file: &ParsedFile = &self.parsed.files[self.next];
        assert(self.fs()[self.next as int] == file@);
        self.stage = ResolutionStage::Baseline;
        ResolutionAction::ReadBaseline { path: file.path.as_str().to_owned() }
    }

    /// The imported changes and the closures of the parents were read, one for
    /// each parent in order: their union is needed in the target view.
    pub fn parents_read(&mut self, parents: &Vec<ParentClosure>) -> (r: ResolutionAction)
        requires
            old(self).wf(),
        ensures
            final(self).wf(),
            same_merge(*old(self), *final(self)),
            if old(self).stage != ResolutionStage::Parents || merge::parent_shas(parents@)
                != text::texts(old(self).parsed.parent_oids@) {
                *final(self) == *old(self) && r is OutOfTurn
            } else {
                match merge::merge_union(parents@, old(self).parsed.git_sha@) {
                    Ok(s) => {
                        &&& *final(self) == ResolutionRun {
                            stage: ResolutionStage::Union,
                            closure: final(self).closure,
                            ..*old(self)
                        }
                        &&& graph::hashes_rising(final(self).closure@)
                        &&& final(self).closure@.to_set() == s
                        &&& r matches ResolutionAction::EnsureUnion { closure } && closure@
                            == final(self).closure@
                    },
                    Err(m) => moved(*old(self), *final(self), ResolutionStage::Done) && (
                    r matches ResolutionAction::Fail { error } && error.is_git_error(m)),
                }
            },
    {
        if self.stage != ResolutionStage::Parents || !are_parents(
            parents,
            &self.parsed.parent_oids,
        ) {
            return ResolutionAction::OutOfTurn;
        }
        match merge_parent_closure(&self.parsed.git_sha, parents) {
            Ok(closure) => {
                let shown = clone_hashes(&closure);
                self.closure = closure;
                self.stage = ResolutionStage::Union;
                ResolutionAction::EnsureUnion { closure: shown }
            },
            Err(e) => self.fail(e),
        }
    }

    /// The target view refers to the whole union: the origin of the
    /// resolution is named.
    pub fn union_ensured(&mut self) -> (r: ResolutionAction)
        requires
            old(self).wf(),
        ensures
            final(self).wf(),
            same_merge(*old(self), *final(self)),
            ({
                let p = *old(self).parsed;
                if old(self).stage != ResolutionStage::Union {
                    *final(self) == *old(self) && r is OutOfTurn
                } else if oid::sound_ids(p.git_sha@, merge::resolution_ids(p)) {
                    &&& r is ReadBaselines
                    &&& *final(self) == ResolutionRun {
                        stage: ResolutionStage::Baselines,
                        origin: final(self).origin,
                        ..*old(self)
                    }
                    &&& final(self).origin matches Some(o) && o.commit@
                        == synthesis::named_object(p.git_sha@) && synthesis::id_views(o.parents@)
                        == synthesis::named_objects(text::texts(p.parent_oids@))
                } else {
                    moved(*old(self), *final(self), ResolutionStage::Done) && (
                    r matches ResolutionAction::Fail { error } && oid::tells_unsound_ids(
                        error,
                        p.git_sha@,
                        merge::resolution_ids(p),
                    ))
                }
            }),
    {
        if self.stage != ResolutionStage::Union {
            return ResolutionAction::OutOfTurn;
        }
        match resolution_origin(self.parsed) {
            Ok(origin) => {
                self.origin = Some(origin);
                self.stage = ResolutionStage::Baselines;
                ResolutionAction::ReadBaselines
            },
            Err(e) => self.fail(e),
        }
    }

    /// What the union holds for every path was read, one answer for each
    /// file: what the merge adds is registered first, unless the working
    /// copy is left alone.
    pub fn baselines_read(&mut self, unions: &Vec<Option<Vec<u8>>>) -> (r: ResolutionAction)
        requires
            old(self).wf(),
        ensures
            final(self).wf(),
            same_merge(*old(self), *final(self)),
            ({
                let fs = old(self).fs();
                let added = merge::added_by_merge(fs, unions@, fs.len() as int);
                if old(self).stage != ResolutionStage::Baselines || unions@.len() != fs.len() {
                    *final(self) == *old(self) && r is OutOfTurn
                } else if !old(self).preserve && added.len() > 0 {
                    moved(*old(self), *final(self), ResolutionStage::Registration) && (
                    r matches ResolutionAction::Register { paths } && text::texts(paths@) == added)
                } else {
                    moved(*old(self), *final(self), final(self).stage) && taken_up(
                        *final(self),
                        0,
                        r,
                    )
                }
            }),
    {
        if self.stage != ResolutionStage::Baselines || unions.len() != self.parsed.files.len() {
            return ResolutionAction::OutOfTurn;
        }
        let added = merge_added_paths(&self.parsed.files, unions);
        assert(text::texts(added@).len() == added@.len());
        if !self.preserve && added.len() > 0 {
            self.stage = ResolutionStage::Registration;
            return ResolutionAction::Register { paths: added };
        }
        self.take_up()
    }

    /// The added paths are registered.
    pub fn registered(&mut self) -> (r: ResolutionAction)
        requires
            old(self).wf(),
        ensures
            final(self).wf(),
            same_merge(*old(self), *final(self)),
            if old(self).stage != ResolutionStage::Registration {
                *final(self) == *old(self) && r is OutOfTurn
            } else {
                moved(*old(self), *final(self), final(self).stage) && taken_up(*final(self), 0, r)
            },
    {
        if self.stage != ResolutionStage::Registration {
            return ResolutionAction::OutOfTurn;
        }
        self.take_up()
    }

    /// What the union holds for the path at hand was read.
    pub fn baseline_read(&mut self, union: Option<Vec<u8>>) -> (r: ResolutionAction)
        requires
            old(self).wf(),
        ensures
            final(self).wf(),
            same_merge(*old(self), *final(self)),
            if old(self).stage != ResolutionStage::Baseline {
                *final(self) == *old(self) && r is OutOfTurn
            } else {
                let k = old(self).next as int;
                let f = old(self).fs()[k];
                &&& *final(self) == ResolutionRun {
                    stage: final(self).stage,
                    next: final(self).next,
                    unions: final(self).unions,
                    ..*old(self)
                }
                &&& final(self).unions@ == old(self).unions@.push(union)
                &&& match merge::merge_step_of(f.new_content, graph::opt_bytes(union)) {
                    merge::MergeStepView::Nothing => taken_up(*final(self), k + 1, r),
                    merge::MergeStepView::Resolve(c) => final(self).next == k && final(self).stage
                        == ResolutionStage::Resolution && (r matches ResolutionAction::Resolve {
                        path,
                        content,
                    } && path@ == f.path && content@ == c),
                    merge::MergeStepView::Add(c) => final(self).next == k && final(self).stage
                        == ResolutionStage::Addition && (r matches ResolutionAction::Add {
                        path,
                        content,
                    } && path@ == f.path && content@ == c),
                    merge::MergeStepView::Delete => final(self).next == k && final(self).stage
                        == ResolutionStage::Binding && (r matches ResolutionAction::Bind { path }
                        && path@ == f.path),
                }
            },
    {
        if self.stage != ResolutionStage::Baseline {
            return ResolutionAction::OutOfTurn;
        }
        let k: usize = self.next;
        let ghost fs = self.fs();
        let ghost ks = self.ks();
        let ghost before = self.unions@;
        let ghost deleted = text::texts(self.deleted@);
        let file: &ParsedFile = &self.parsed.files[k];
        assert(fs[k as int] == file@);
        let step = merge_step(file, &union);
        self.unions.push(union);
        proof {
            lemma_resolved_stays(fs, before, self.unions@, ks, ks, deleted, deleted, k as int);
        }
        let path: String = file.path.as_str().to_owned();
        match step {
            MergeStep::Nothing => {
                assert(resolved(fs, self.unions@, ks, deleted, k as int));
                self.next = k + 1;
                self.take_up()
            },
            MergeStep::Resolve { content } => {
                self.stage = ResolutionStage::Resolution;
                ResolutionAction::Resolve { path, content }
            },
            MergeStep::Add { content } => {
                self.stage = ResolutionStage::Addition;
                ResolutionAction::Add { path, content }
            },
            MergeStep::Delete => {
                self.stage = ResolutionStage::Binding;
                ResolutionAction::Bind { path }
            },
        }
    }

    /// The file of a deletion was looked for.
    pub fn bound(&mut self, known: bool) -> (r: ResolutionAction)
        requires
            old(self).wf(),
        ensures
            final(self).wf(),
            same_merge(*old(self), *final(self)),
            ({
                let path = old(self).fs()[old(self).next as int].path;
                if old(self).stage != ResolutionStage::Binding {
                    *final(self) == *old(self) && r is OutOfTurn
                } else if known {
                    *final(self) == (ResolutionRun {
                        stage: ResolutionStage::Deletion,
                        ..*old(self)
                    }) && (r matches ResolutionAction::Delete { path: p } && p@ == path)
                } else {
                    *final(self) == (ResolutionRun { stage: ResolutionStage::Done, ..*old(self) })
                        && (r matches ResolutionAction::Fail { error } && error.is_git_error(
                        merge::unbound_deletion_text(path),
                    ))
                }
            }),
    {
        if self.stage != ResolutionStage::Binding {
            return ResolutionAction::OutOfTurn;
        }
        let file: &ParsedFile = &self.parsed.files[self.next];
        assert(self.fs()[self.next as int] == file@);
        match require_deletion_binding(known, &file.path) {
            Ok(_) => {
                let path: String = file.path.as_str().to_owned();
                self.stage = ResolutionStage::Deletion;
                ResolutionAction::Delete { path }
            },
            Err(e) => self.fail(e),
        }
    }

    /// The record that was waited for was made; `empty` tells whether it
    /// holds nothing. An empty one ends the run.
    pub fn recorded(&mut self, empty: bool) -> (r: ResolutionAction)
        requires
            old(self).wf(),
        ensures
            final(self).wf(),
            same_merge(*old(self), *final(self)),
            ({
                let k = old(self).next as int;
                let path = old(self).fs()[k].path;
                match awaited(old(self).stage) {
                    None => *final(self) == *old(self) && r is OutOfTurn,
                    Some((record, kind)) => if empty {
                        moved(*old(self), *final(self), ResolutionStage::Done) && (
                        r matches ResolutionAction::Fail { error } && error.is_internal(
                            merge::empty_merge_record_text(record, path),
                        ))
                    } else {
                        &&& *final(self) == ResolutionRun {
                            stage: final(self).stage,
                            next: final(self).next,
                            records: final(self).records,
                            deleted: final(self).deleted,
                            ..*old(self)
                        }
                        &&& final(self).ks() == old(self).ks().push(
                            recording::KeptView { file: k, path, kind, attrs: seq![] },
                        )
                        &&& text::texts(final(self).deleted@) == if kind == KeptKind::Deletion {
                            text::texts(old(self).deleted@).push(path)
                        } else {
                            text::texts(old(self).deleted@)
                        }
                        &&& taken_up(*final(self), k + 1, r)
                    },
                }
            }),
    {
        let (record, kind) = match self.stage {
            ResolutionStage::Resolution => (MergeRecord::Resolution, KeptKind::Content),
            ResolutionStage::Addition => (MergeRecord::Addition, KeptKind::Content),
            ResolutionStage::Deletion => (MergeRecord::Deletion, KeptKind::Deletion),
            _ => {
                return ResolutionAction::OutOfTurn;
            },
        };
        let k: usize = self.next;
        let ghost fs = self.fs();
        let ghost ks = self.ks();
        let ghost deleted = text::texts(self.deleted@);
        let file: &ParsedFile = &self.parsed.files[k];
        assert(fs[k as int] == file@);
        if let Err(e) = require_merge_record(empty, record, &file.path) {
            return self.fail(e);
        }
        let kept = KeptRecord {
            file: k,
            path: file.path.as_str().to_owned(),
            kind,
            attrs: Vec::new(),
        };
        let ghost kv = recording::KeptView {
            file: k as int,
            path: file.path@,
            kind,
            attrs: seq![],
        };
        assert(kept@ =~= kv);
        self.records.push(kept);
        assert(self.ks() =~= ks.push(kv));
        assert(self.ks()[ks.len() as int] == kv);
        if kind == KeptKind::Deletion {
            self.deleted.push(file.path.as_str().to_owned());
            assert(text::texts(self.deleted@) =~= deleted.push(file.path@));
            assert(text::texts(self.deleted@)[deleted.len() as int] == file.path@);
        }
        proof {
            lemma_resolved_stays(
                fs,
                self.unions@,
                self.unions@,
                ks,
                self.ks(),
                deleted,
                text::texts(self.deleted@),
                k as int,
            );
            assert(resolved(
                fs,
                self.unions@,
                self.ks(),
                text::texts(self.deleted@),
                k as int,
            ));
        }
        self.next = k + 1;
        self.take_up()
    }

    /// The records were published as one resolution: what is cached of the
    /// deleted paths goes, unless the working copy is left alone.
    pub fn published(&mut self) -> (r: ResolutionAction)
        requires
            old(self).wf(),
        ensures
            final(self).wf(),
            same_merge(*old(self), *final(self)),
            if old(self).stage != ResolutionStage::Publication {
                *final(self) == *old(self) && r is OutOfTurn
            } else if !old(self).preserve && old(self).deleted@.len() > 0 {
                moved(*old(self), *final(self), ResolutionStage::Cleanup) && (
                r matches ResolutionAction::Unindex { paths } && text::texts(paths@) == text::texts(
                    old(self).deleted@,
                ))
            } else {
                moved(*old(self), *final(self), ResolutionStage::Done) && r is Finish
            },
    {
        if self.stage != ResolutionStage::Publication {
            return ResolutionAction::OutOfTurn;
        }
        if !self.preserve && self.deleted.len() > 0 {
            let paths = text::clone_texts(&self.deleted);
            self.stage = ResolutionStage::Cleanup;
            return ResolutionAction::Unindex { paths };
        }
        self.stage = ResolutionStage::Done;
        ResolutionAction::Finish
    }

    /// What is cached of the deleted paths is gone.
    pub fn unindexed(&mut self) -> (r: ResolutionAction)
        requires
            old(self).wf(),
        ensures
            final(self).wf(),
            if old(self).stage != ResolutionStage::Cleanup {
                *final(self) == *old(self) && r is OutOfTurn
            } else {
                *final(self) == (ResolutionRun { stage: ResolutionStage::Done, ..*old(self) })
                    && r is Finish
            },
    {
        if self.stage != ResolutionStage::Cleanup {
            return ResolutionAction::OutOfTurn;
        }
        self.stage = ResolutionStage::Done;
        ResolutionAction::Finish
    }
}

/// A resolution is published only for the merge's own tree: at that point
/// every path for which the union and the merge differ has its record, and
/// with the recorded steps every path holds what the merge holds.
pub proof fn resolutions_lead_to_the_merge(run: ResolutionRun, k: int)
    requires
        run.wf(),
        run.stage == ResolutionStage::Publication,
        0 <= k < run.parsed.files@.len(),
    ensures
        ({
            let merged = run.fs()[k].new_content;
            let union = graph::opt_bytes(run.unions@[k]);
            &&& merge::after_step(merge::merge_step_of(merged, union), union) == merged
            &&& merged != union ==> recording::has_record(
                run.ks(),
                k,
                if merged is None {
                    KeptKind::Deletion
                } else {
                    KeptKind::Content
                },
            )
        }),
{
    assert(resolved(run.fs(), run.unions@, run.ks(), text::texts(run.deleted@), k));
    merge::the_merge_tree_decides(
        run.fs()[k].new_content,
        graph::opt_bytes(run.unions@[k]),
    );
}

} // verus!
