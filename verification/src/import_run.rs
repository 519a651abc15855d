//! The run of an import: every verified commit taken up in order, counted by
//! what came of it, and the whole brought to its end.
use crate::claims::VerifiedImportCommit;
use crate::commit;
use crate::commit::ParsedCommit;
use crate::error::CliError;
use crate::graph::ContentHash;
use crate::import;
use crate::import::{
    classifies, finish_mode, next_action, normalized_path, paths_to_index, skipped_notice,
    CommitOutcome, FinishMode, ImportStats, ParallelImportOptions, ParallelImporter, WriteAction,
    WriteEvent, WriteStats,
};
use crate::squash;
use crate::squash::{
    describes_squash, resurrected_info, squash_claim, verified_binding_for, written_info,
    BindingResolution, ImportedCommitInfo, Resurrection,
};
use crate::text;
use vstd::prelude::*;

verus! {

/// How far an import has come: what it waits for.
#[derive(Clone, Copy, Debug, PartialEq, Eq, Structural)]
pub enum ImportStage {
    /// Whether originals stand for the commit at hand.
    Squash,
    /// Whether a verified binding is known for it.
    Binding,
    /// Its restoration.
    Resurrection,
    /// Its change.
    Writing,
    /// The index of the written files.
    Indexing,
    /// The tags of merges and squashes.
    Classification,
    /// The working copy.
    Cleanup,
    /// Nothing: the import came to its end.
    Done,
    /// Nothing: the import failed.
    Failed,
}

/// What came of the attempt to represent a commit by its originals.
#[derive(Debug)]
pub enum SquashDecision {
    /// They stand for it.
    Inserted(ImportedCommitInfo),
    /// They are missing or diverge: it is left out.
    Skipped,
    /// It is no squash.
    NotSquash,
}

/// What is to be done next. Commits are given by their number.
#[derive(Debug)]
pub enum ImportAction {
    /// Try to represent the commit by its originals.
    TrySquashInsert { commit: usize },
    /// Look for a binding of the commit.
    FindBinding { commit: usize },
    /// Restore the commit from its binding.
    Resurrect { commit: usize },
    /// Write the commit, told of first where `report` is set.
    Write { commit: usize, report: bool },
    /// Put these paths into the file index, where they are on disk.
    IndexFiles { paths: Vec<String> },
    /// Tag the imported merges and squashes.
    Classify,
    /// Drop what is cached of files that are gone.
    DropStaleCache,
    /// Bring the recorded files and the working copy together.
    Reconcile,
    /// The import is over.
    Finish,
    /// The import failed, with the number of commits that landed where some
    /// may have.
    Fail { landed: Option<usize>, error: CliError },
    /// The import does not wait for this.
    OutOfTurn,
}

/// An import that is under way.
#[derive(Debug)]
pub struct ImportRun<'a> {
    pub importer: &'a ParallelImporter,
    pub commits: &'a Vec<VerifiedImportCommit>,
    pub stage: ImportStage,
    /// What came of the commits so far.
    pub outcomes: Vec<CommitOutcome>,
    pub written: WriteStats,
    /// What is kept of the imported commits.
    pub imported: Vec<ImportedCommitInfo>,
    pub stats: ImportStats,
}

/// The outcomes, each with the number of its commit's files.
pub open spec fn with_files(os: Seq<CommitOutcome>, cs: Seq<VerifiedImportCommit>) -> Seq<
    (CommitOutcome, nat),
> {
    Seq::new(os.len(), |i: int| (os[i], cs[i].parsed.files@.len()))
}

/// The number of files of the first `n` commits.
pub open spec fn files_in(cs: Seq<VerifiedImportCommit>, n: int) -> nat
    decreases n,
{
    if n <= 0 {
        0
    } else {
        files_in(cs, n - 1) + cs[n - 1].parsed.files@.len()
    }
}

/// The paths that the first `n` commits put into the file index.
pub open spec fn all_indexed(cs: Seq<VerifiedImportCommit>, n: int) -> Seq<Seq<char>>
    decreases n,
{
    if n <= 0 {
        seq![]
    } else {
        let fs = commit::file_views(cs[n - 1].parsed.files@);
        all_indexed(cs, n - 1) + import::indexed(fs, fs.len() as int).map_values(
            |p: Seq<char>| text::replaced(p, '\\', '/'),
        )
    }
}

/// What the commits at hand are counted as, without the reason of a stop.
pub open spec fn unstopped(w: import::WriteStatsView) -> import::WriteStatsView {
    import::WriteStatsView { failure: None, ..w }
}

proof fn lemma_files_counted(os: Seq<CommitOutcome>, cs: Seq<VerifiedImportCommit>)
    requires
        os.len() <= cs.len(),
    ensures
        import::counted_all(with_files(os, cs)).files_processed <= files_in(cs, os.len() as int),
    decreases os.len(),
{
    if os.len() > 0 {
        let fewer = os.drop_last();
        assert(with_files(os, cs).drop_last() =~= with_files(fewer, cs));
        lemma_files_counted(fewer, cs);
    }
}

proof fn lemma_files_grow(cs: Seq<VerifiedImportCommit>, n: int, m: int)
    requires
        0 <= n <= m,
    ensures
        files_in(cs, n) <= files_in(cs, m),
    decreases m - n,
{
    if n < m {
        lemma_files_grow(cs, n, m - 1);
    }
}

proof fn lemma_counted_push(os: Seq<CommitOutcome>, o: CommitOutcome, cs: Seq<VerifiedImportCommit>)
    requires
        os.len() < cs.len(),
    ensures
        import::counted_all(with_files(os.push(o), cs)) == import::counted(
            import::counted_all(with_files(os, cs)),
            o,
            cs[os.len() as int].parsed.files@.len(),
        ),
{
    assert(with_files(os.push(o), cs).drop_last() =~= with_files(os, cs));
}

/// The stage that waits for the answer to a commit's next action.
pub open spec fn stage_of(a: WriteAction) -> ImportStage {
    match a {
        WriteAction::TrySquashInsert => ImportStage::Squash,
        WriteAction::FindBinding => ImportStage::Binding,
        WriteAction::Resurrect => ImportStage::Resurrection,
        WriteAction::Write => ImportStage::Writing,
        WriteAction::Done(_) => ImportStage::Indexing,
    }
}

/// Whether `r` asks for a commit's next action.
pub open spec fn asks(r: ImportAction, a: WriteAction, k: int, total: int) -> bool {
    match a {
        WriteAction::TrySquashInsert => r matches ImportAction::TrySquashInsert { commit }
            && commit == k,
        WriteAction::FindBinding => r matches ImportAction::FindBinding { commit } && commit == k,
        WriteAction::Resurrect => r matches ImportAction::Resurrect { commit } && commit == k,
        WriteAction::Write => r matches ImportAction::Write { commit, report } && commit == k
            && report == (total > 100 && k % 100 == 0),
        WriteAction::Done(_) => false,
    }
}

/// The first commit from `from` on that was not pushed from here.
pub open spec fn next_commit(
    cs: Seq<VerifiedImportCommit>,
    o: ParallelImportOptions,
    from: int,
) -> int
    decreases cs.len() - from,
{
    if from < 0 || from >= cs.len() {
        cs.len() as int
    } else if !import::skips_self_push(cs[from].parsed, o) {
        from
    } else {
        next_commit(cs, o, from + 1)
    }
}

proof fn lemma_next_commit(cs: Seq<VerifiedImportCommit>, o: ParallelImportOptions, from: int)
    requires
        0 <= from,
    ensures
        next_commit(cs, o, from) < cs.len() ==> !import::skips_self_push(
            cs[next_commit(cs, o, from)].parsed,
            o,
        ),
    decreases cs.len() - from,
{
    if from < cs.len() && import::skips_self_push(cs[from].parsed, o) {
        lemma_next_commit(cs, o, from + 1);
    }
}

/// The outcomes once the commits from the next one up to `n` are skipped.
pub open spec fn skipped_to(os: Seq<CommitOutcome>, n: int) -> Seq<CommitOutcome> {
    Seq::new(
        n as nat,
        |i: int|
            if i < os.len() {
                os[i]
            } else {
                CommitOutcome::SelfPushSkipped
            },
    )
}

/// Whether the run `b` has gone on, after the outcomes `os`, to its next
/// commit, or to the index of the files where there is none left.
pub open spec fn goes_on(b: ImportRun, os: Seq<CommitOutcome>, r: ImportAction) -> bool {
    let cs = b.commits@;
    let o = b.importer.options;
    let k = next_commit(cs, o, os.len() as int);
    &&& b.outcomes@ == skipped_to(os, k)
    &&& b.written.failure is None
    &&& if k == cs.len() {
        b.stage == ImportStage::Indexing && (r matches ImportAction::IndexFiles { paths }
            && text::texts(paths@) == all_indexed(cs, cs.len() as int))
    } else {
        let a = import::next_action_of(cs[k].parsed, o, WriteEvent::Start);
        b.stage == stage_of(a) && asks(r, a, k, cs.len() as int)
    }
}

/// Whether a decision fits the commit that it is about: only a commit that
/// names originals is inserted or left out for them.
pub open spec fn decides(d: SquashDecision, p: ParsedCommit) -> bool {
    match d {
        SquashDecision::Inserted(info) => squash::squash_described(info, p),
        SquashDecision::Skipped => squash::squash_originals(p) is Some,
        SquashDecision::NotSquash => squash::squash_originals(p) is None,
    }
}

/// Tell whether a decision fits the commit that it is about.
fn fits_commit(decision: &SquashDecision, parsed: &ParsedCommit) -> (r: bool)
    ensures
        r == decides(*decision, *parsed),
{
    match decision {
        SquashDecision::Inserted(info) => describes_squash(info, parsed),
        SquashDecision::Skipped => squash_claim(parsed).is_some(),
        SquashDecision::NotSquash => squash_claim(parsed).is_none(),
    }
}

/// Whether two runs are of the same import.
pub open spec fn same_import(a: ImportRun, b: ImportRun) -> bool {
    a.importer == b.importer && a.commits == b.commits
}

/// Whether two statistics hold the same skipped and inserted commits.
pub open spec fn same_skips(a: ImportStats, b: ImportStats) -> bool {
    &&& a.self_push_skipped == b.self_push_skipped
    &&& a.squash_inserted == b.squash_inserted
    &&& a.squash_skipped == b.squash_skipped
}

/// Whether `i` lists what is kept: the infos `before`, and then one more.
pub open spec fn kept_one_more(
    i: Seq<ImportedCommitInfo>,
    before: Seq<ImportedCommitInfo>,
) -> bool {
    i.len() == before.len() + 1 && i.drop_last() == before
}

impl<'a> ImportRun<'a> {
    /// Whether every commit so far is counted by its outcome, and the commit
    /// at hand is one that what is waited for fits.
    pub open spec fn wf(&self) -> bool {
        let cs = self.commits@;
        let k = self.outcomes@.len() as int;
        &&& files_in(cs, cs.len() as int) <= usize::MAX
        &&& cs.len() <= usize::MAX
        &&& k <= cs.len()
        &&& unstopped(self.written@) == import::counted_all(with_files(self.outcomes@, cs))
        &&& match self.stage {
            ImportStage::Squash | ImportStage::Binding | ImportStage::Resurrection
            | ImportStage::Writing => k < cs.len() && self.written.failure is None,
            ImportStage::Indexing => self.written.failure is None ==> k == cs.len(),
            ImportStage::Classification | ImportStage::Cleanup | ImportStage::Done => k == cs.len()
                && self.written.failure is None && import::takes_counts(
                self.stats,
                self.stats,
                self.written@,
            ) && self.stats.commits_parsed == cs.len() && self.takes_skips(),
            ImportStage::Failed => true,
        }
        &&& self.stage == ImportStage::Squash || self.stage == ImportStage::Binding || self.stage
            == ImportStage::Resurrection || self.stage == ImportStage::Writing || self.stage
            == ImportStage::Indexing ==> self.stats.commits_parsed == cs.len()
            && self.stats.self_push_skipped == 0 && self.stats.squash_inserted == 0
            && self.stats.squash_skipped == 0
    }

    /// Whether the statistics hold the skipped and inserted commits.
    pub open spec fn takes_skips(&self) -> bool {
        &&& self.stats.self_push_skipped == self.written.self_push_skipped
        &&& self.stats.squash_inserted == self.written.squash_inserted
        &&& self.stats.squash_skipped == self.written.squash_skipped
    }

    /// Start the import of verified commits. Without any it is over at once.
    pub fn begin(
        importer: &'a ParallelImporter,
        commits: &'a Vec<VerifiedImportCommit>,
        correlation_id: String,
    ) -> (r: (ImportRun<'a>, ImportAction))
        requires
            files_in(commits@, commits@.len() as int) <= usize::MAX,
        ensures
            r.0.wf(),
            r.0.importer == importer,
            r.0.commits == commits,
            r.0.imported@.len() == 0,
            r.0.stats.commits_found == commits@.len(),
            r.0.stats.commits_parsed == commits@.len(),
            r.0.stats.correlation_id == correlation_id,
            import::accounted_in(r.0.stats) == 0,
            r.0.stats.resurrected_exact == 0,
            r.0.stats.files_processed == 0,
            if commits@.len() == 0 {
                r.0.stage == ImportStage::Done && r.1 is Finish
            } else {
                goes_on(r.0, seq![], r.1)
            },
    {
        let total: usize = commits.len();
        let stats = ParallelImporter::initial_stats(total, correlation_id);
        let mut run = ImportRun {
            importer,
            commits,
            stage: ImportStage::Done,
            outcomes: Vec::new(),
            written: WriteStats::new(),
            imported: Vec::new(),
            stats,
        };
        assert(with_files(run.outcomes@, commits@) =~= seq![]);
        if total == 0 {
            return (run, ImportAction::Finish);
        }
        assert(run.outcomes@ =~= seq![]);
        let action = run.go_on();
        (run, action)
    }

    fn count(&mut self, outcome: CommitOutcome)
        requires
            old(self).wf(),
            old(self).outcomes@.len() < old(self).commits@.len(),
            old(self).written.failure is None,
        ensures
            same_import(*old(self), *final(self)),
            final(self).stage == old(self).stage,
            final(self).imported == old(self).imported,
            final(self).stats == old(self).stats,
            final(self).outcomes@ == old(self).outcomes@.push(outcome),
            final(self).written.failure is None,
            unstopped(final(self).written@) == import::counted_all(
                with_files(final(self).outcomes@, final(self).commits@),
            ),
    {
        let ghost cs = self.commits@;
        let ghost os = self.outcomes@;
        proof {
            import::every_commit_is_accounted_for(with_files(os, cs));
            lemma_files_counted(os, cs);
            lemma_files_grow(cs, os.len() as int + 1, cs.len() as int);
            lemma_counted_push(os, outcome, cs);
        }
        let files: usize = self.commits[self.outcomes.len()].parsed.files.len();
        self.written.count(outcome, files);
        self.outcomes.push(outcome);
        assert(self.outcomes@ =~= os.push(outcome));
    }

    /// Ask for the next action of the commit at hand.
    fn ask(&mut self, action: WriteAction) -> (r: ImportAction)
        requires
            old(self).outcomes@.len() < old(self).commits@.len(),
            !(action is Done),
        ensures
            *final(self) == (ImportRun { stage: stage_of(action), ..*old(self) }),
            asks(r, action, old(self).outcomes@.len() as int, old(self).commits@.len() as int),
    {
        let commit: usize = self.outcomes.len();
        match action {
            WriteAction::TrySquashInsert => {
                self.stage = ImportStage::Squash;
                ImportAction::TrySquashInsert { commit }
            },
            WriteAction::FindBinding => {
                self.stage = ImportStage::Binding;
                ImportAction::FindBinding { commit }
            },
            WriteAction::Resurrect => {
                self.stage = ImportStage::Resurrection;
                ImportAction::Resurrect { commit }
            },
            WriteAction::Write => {
                self.stage = ImportStage::Writing;
                ImportAction::Write {
                    commit,
                    report: import::reports_progress(self.commits.len(), commit),
                }
            },
            WriteAction::Done(_) => {
                self.stage = ImportStage::Indexing;
                ImportAction::OutOfTurn
            },
        }
    }

    /// Go on to the next commit that was not pushed from here.
    fn go_on(&mut self) -> (r: ImportAction)
        requires
            old(self).outcomes@.len() <= old(self).commits@.len() <= usize::MAX,
            old(self).written.failure is None,
            unstopped(old(self).written@) == import::counted_all(
                with_files(old(self).outcomes@, old(self).commits@),
            ),
            files_in(old(self).commits@, old(self).commits@.len() as int) <= usize::MAX,
            old(self).stats.commits_parsed == old(self).commits@.len(),
            old(self).stats.self_push_skipped == 0,
            old(self).stats.squash_inserted == 0,
            old(self).stats.squash_skipped == 0,
        ensures
            final(self).wf(),
            same_import(*old(self), *final(self)),
            final(self).imported == old(self).imported,
            final(self).stats == old(self).stats,
            goes_on(*final(self), old(self).outcomes@, r),
    {
        let ghost cs = self.commits@;
        let ghost o = self.importer.options;
        let ghost os = self.outcomes@;
        self.stage = ImportStage::Failed;
        assert(skipped_to(os, os.len() as int) =~= os);
        while self.outcomes.len() < self.commits.len()
            invariant
                same_import(*old(self), *self),
                cs == self.commits@,
                o == self.importer.options,
                os.len() <= self.outcomes@.len() <= cs.len(),
                self.wf(),
                self.stage == ImportStage::Failed,
                self.written.failure is None,
                self.imported == old(self).imported,
                self.stats == old(self).stats,
                self.outcomes@ == skipped_to(os, self.outcomes@.len() as int),
                next_commit(cs, o, self.outcomes@.len() as int) == next_commit(
                    cs,
                    o,
                    os.len() as int,
                ),
            ensures
                self.outcomes@.len() == next_commit(cs, o, os.len() as int),
            decreases cs.len() - self.outcomes@.len(),
        {
            let parsed: &ParsedCommit = &self.commits[self.outcomes.len()].parsed;
            if !import::should_skip_self_push(parsed, &self.importer.options) {
                break;
            }
            let ghost n = self.outcomes@.len() as int;
            self.count(CommitOutcome::SelfPushSkipped);
            assert(self.outcomes@ =~= skipped_to(os, n + 1));
        }
        proof {
            lemma_next_commit(cs, o, os.len() as int);
        }
        if self.outcomes.len() < self.commits.len() {
            let parsed: &ParsedCommit = &self.commits[self.outcomes.len()].parsed;
            let action = next_action(parsed, &self.importer.options, WriteEvent::Start);
            return self.ask(action);
        }
        self.index_files()
    }

    /// Ask for the index of the files.
    fn index_files(&mut self) -> (r: ImportAction)
        ensures
            *final(self) == (ImportRun { stage: ImportStage::Indexing, ..*old(self) }),
            r matches ImportAction::IndexFiles { paths } && text::texts(paths@) == all_indexed(
                old(self).commits@,
                old(self).commits@.len() as int,
            ),
    {
        self.stage = ImportStage::Indexing;
        ImportAction::IndexFiles { paths: indexed_paths(self.commits) }
    }

    fn fail(&mut self, landed: Option<usize>, error: CliError) -> (r: ImportAction)
        ensures
            *final(self) == (ImportRun { stage: ImportStage::Failed, ..*old(self) }),
            r == (ImportAction::Fail { landed, error }),
    {
        self.stage = ImportStage::Failed;
        ImportAction::Fail { landed, error }
    }

    /// What was to be done outside failed: the import is over. A commit that
    /// could not be written stops the import less abruptly.
    pub fn failed(&mut self, error: CliError) -> (r: ImportAction)
        requires
            old(self).wf(),
        ensures
            final(self).wf(),
            if old(self).stage == ImportStage::Done || old(self).stage == ImportStage::Failed {
                *final(self) == *old(self) && r is OutOfTurn
            } else {
                *final(self) == (ImportRun { stage: ImportStage::Failed, ..*old(self) }) && r == (
                ImportAction::Fail { landed: None, error })
            },
    {
        if self.stage == ImportStage::Done || self.stage == ImportStage::Failed {
            return ImportAction::OutOfTurn;
        }
        self.fail(None, error)
    }

    /// Whether originals stand for the commit at hand is decided.
    pub fn squash_decided(&mut self, decision: SquashDecision) -> (r: ImportAction)
        requires
            old(self).wf(),
        ensures
            final(self).wf(),
            same_import(*old(self), *final(self)),
            final(self).stats == old(self).stats,
            if old(self).stage != ImportStage::Squash || !decides(
                decision,
                old(self).commits@[old(self).outcomes@.len() as int].parsed,
            ) {
                *final(self) == *old(self) && r is OutOfTurn
            } else {
                match decision {
                    SquashDecision::Inserted(info) => final(self).imported@ == old(
                        self,
                    ).imported@.push(info) && goes_on(
                        *final(self),
                        old(self).outcomes@.push(CommitOutcome::SquashInserted),
                        r,
                    ),
                    SquashDecision::Skipped => final(self).imported == old(self).imported
                        && goes_on(
                        *final(self),
                        old(self).outcomes@.push(CommitOutcome::SquashSkipped),
                        r,
                    ),
                    SquashDecision::NotSquash => *final(self) == (ImportRun {
                        stage: ImportStage::Binding,
                        ..*old(self)
                    }) && r == (ImportAction::FindBinding {
                        commit: old(self).outcomes@.len() as usize,
                    }),
                }
            },
    {
        if self.stage != ImportStage::Squash || !fits_commit(
            &decision,
            &self.commits[self.outcomes.len()].parsed,
        ) {
            return ImportAction::OutOfTurn;
        }
        match decision {
            SquashDecision::Inserted(info) => {
                self.count(CommitOutcome::SquashInserted);
                self.imported.push(info);
                self.go_on()
            },
            SquashDecision::Skipped => {
                self.count(CommitOutcome::SquashSkipped);
                self.go_on()
            },
            SquashDecision::NotSquash => self.ask(WriteAction::FindBinding),
        }
    }

    /// A binding of the commit at hand was looked for. One that failed
    /// verification ends the import: it is never written over.
    pub fn binding_resolved(&mut self, resolution: &BindingResolution) -> (r: ImportAction)
        requires
            old(self).wf(),
        ensures
            final(self).wf(),
            same_import(*old(self), *final(self)),
            ({
                let k = old(self).outcomes@.len() as int;
                let total = old(self).commits@.len() as int;
                if old(self).stage != ImportStage::Binding {
                    *final(self) == *old(self) && r is OutOfTurn
                } else {
                    match resolution {
                        BindingResolution::Verified => *final(self) == (ImportRun {
                            stage: ImportStage::Resurrection,
                            ..*old(self)
                        }) && asks(r, WriteAction::Resurrect, k, total),
                        BindingResolution::Cold => *final(self) == (ImportRun {
                            stage: ImportStage::Writing,
                            ..*old(self)
                        }) && asks(r, WriteAction::Write, k, total),
                        BindingResolution::Unresolved { detail } => *final(self) == (ImportRun {
                            stage: ImportStage::Failed,
                            ..*old(self)
                        }) && (r matches ImportAction::Fail { landed, error } && landed is None
                            && error.is_git_error(
                            squash::unresolved_text(
                                old(self).commits@[k].parsed.git_sha@,
                                detail@,
                            ),
                        )),
                    }
                }
            }),
    {
        if self.stage != ImportStage::Binding {
            return ImportAction::OutOfTurn;
        }
        let sha: &String = &self.commits[self.outcomes.len()].parsed.git_sha;
        match verified_binding_for(sha, resolution) {
            Ok(true) => self.ask(WriteAction::Resurrect),
            Ok(false) => self.ask(WriteAction::Write),
            Err(e) => self.fail(None, e),
        }
    }

    /// The commit at hand was restored. A binding without changes ends the
    /// import.
    pub fn resurrected(&mut self, outcome: &Resurrection) -> (r: ImportAction)
        requires
            old(self).wf(),
        ensures
            final(self).wf(),
            same_import(*old(self), *final(self)),
            final(self).stats == old(self).stats,
            ({
                let p = old(self).commits@[old(self).outcomes@.len() as int].parsed;
                let ins = outcome.inserted@;
                let had = outcome.already_present@;
                if old(self).stage != ImportStage::Resurrection {
                    *final(self) == *old(self) && r is OutOfTurn
                } else if ins.len() + had.len() == 0 {
                    *final(self) == (ImportRun { stage: ImportStage::Failed, ..*old(self) }) && (
                    r matches ImportAction::Fail { landed, error } && landed is None && error.is_git_error(
                        squash::nothing_to_restore_text(outcome.binding_id@, p.git_sha@),
                    ))
                } else {
                    &&& kept_one_more(final(self).imported@, old(self).imported@)
                    &&& squash::describes(
                        final(self).imported@.last(),
                        p,
                        if ins.len() > 0 {
                            ins.last()
                        } else {
                            had.last()
                        },
                    )
                    &&& !final(self).imported@.last().is_merge
                    &&& final(self).imported@.last().squash_insert is None
                    &&& goes_on(
                        *final(self),
                        old(self).outcomes@.push(CommitOutcome::Resurrected),
                        r,
                    )
                }
            }),
    {
        if self.stage != ImportStage::Resurrection {
            return ImportAction::OutOfTurn;
        }
        let parsed: &ParsedCommit = &self.commits[self.outcomes.len()].parsed;
        match resurrected_info(parsed, outcome) {
            Ok(info) => {
                let ghost before = self.imported@;
                self.count(CommitOutcome::Resurrected);
                self.imported.push(info);
                assert(self.imported@.drop_last() =~= before);
                self.go_on()
            },
            Err(e) => self.fail(None, e),
        }
    }

    /// The commit at hand was written as this change.
    pub fn commit_written(&mut self, change: ContentHash) -> (r: ImportAction)
        requires
            old(self).wf(),
        ensures
            final(self).wf(),
            same_import(*old(self), *final(self)),
            final(self).stats == old(self).stats,
            ({
                let p = old(self).commits@[old(self).outcomes@.len() as int].parsed;
                if old(self).stage != ImportStage::Writing {
                    *final(self) == *old(self) && r is OutOfTurn
                } else {
                    &&& kept_one_more(final(self).imported@, old(self).imported@)
                    &&& squash::describes(final(self).imported@.last(), p, change)
                    &&& final(self).imported@.last().is_merge == p.is_merge
                    &&& final(self).imported@.last().squash_insert is None
                    &&& goes_on(
                        *final(self),
                        old(self).outcomes@.push(import::written_outcome(p.is_merge, p.is_empty)),
                        r,
                    )
                }
            }),
    {
        if self.stage != ImportStage::Writing {
            return ImportAction::OutOfTurn;
        }
        let parsed: &ParsedCommit = &self.commits[self.outcomes.len()].parsed;
        let info = written_info(parsed, change);
        let outcome = if parsed.is_merge {
            CommitOutcome::MergeWritten
        } else if parsed.is_empty {
            CommitOutcome::EmptyWritten
        } else {
            CommitOutcome::ChangeWritten
        };
        let ghost before = self.imported@;
        self.count(outcome);
        self.imported.push(info);
        assert(self.imported@.drop_last() =~= before);
        self.go_on()
    }

    /// The commit at hand could not be written: no further one is taken up,
    /// and what landed stays counted.
    pub fn write_failed(&mut self, why: String) -> (r: ImportAction)
        requires
            old(self).wf(),
        ensures
            final(self).wf(),
            same_import(*old(self), *final(self)),
            if old(self).stage != ImportStage::Writing {
                *final(self) == *old(self) && r is OutOfTurn
            } else {
                &&& *final(self) == ImportRun {
                    stage: ImportStage::Indexing,
                    written: final(self).written,
                    ..*old(self)
                }
                &&& final(self).written@ == (import::WriteStatsView {
                    failure: Some(why@),
                    ..old(self).written@
                })
                &&& r matches ImportAction::IndexFiles { paths } && text::texts(paths@)
                    == all_indexed(old(self).commits@, old(self).commits@.len() as int)
            },
    {
        if self.stage != ImportStage::Writing {
            return ImportAction::OutOfTurn;
        }
        self.written.fail(why);
        self.index_files()
    }

    /// The files are indexed: the statistics are taken over, and where the
    /// writing stopped early, the import fails with what landed.
    pub fn files_indexed(&mut self) -> (r: ImportAction)
        requires
            old(self).wf(),
        ensures
            final(self).wf(),
            *final(self) == (ImportRun {
                stage: final(self).stage,
                stats: final(self).stats,
                ..*old(self)
            }),
            ({
                let w = old(self).written@;
                if old(self).stage != ImportStage::Indexing {
                    *final(self) == *old(self) && r is OutOfTurn
                } else {
                    &&& import::takes_counts(final(self).stats, old(self).stats, w)
                    &&& match w.failure {
                        Some(f) => final(self).stage == ImportStage::Failed && same_skips(
                            final(self).stats,
                            old(self).stats,
                        ) && (r matches ImportAction::Fail { landed, error } && landed == Some(
                            import::landed(w) as usize,
                        ) && error.is_internal(
                            import::partial_import_text(import::landed(w), f),
                        )),
                        None => final(self).takes_skips() && if old(
                            self,
                        ).importer.options.incremental && old(self).imported@.len() > 0 {
                            final(self).stage == ImportStage::Classification && r is Classify
                        } else {
                            cleans_up(*final(self), r)
                        },
                    }
                }
            }),
    {
        if self.stage != ImportStage::Indexing {
            return ImportAction::OutOfTurn;
        }
        proof {
            import::every_commit_is_accounted_for(with_files(self.outcomes@, self.commits@));
        }
        let stopped = self.stats.complete(&self.written);
        if let Some((landed, error)) = stopped {
            return self.fail(Some(landed), error);
        }
        self.stage = ImportStage::Classification;
        if classifies(&self.importer.options, self.imported.len()) {
            return ImportAction::Classify;
        }
        self.clean_up()
    }

    /// The merges and squashes are tagged, or could not be: that is only
    /// warned of.
    pub fn classified(&mut self) -> (r: ImportAction)
        requires
            old(self).wf(),
        ensures
            final(self).wf(),
            *final(self) == (ImportRun { stage: final(self).stage, ..*old(self) }),
            if old(self).stage != ImportStage::Classification {
                *final(self) == *old(self) && r is OutOfTurn
            } else {
                cleans_up(*final(self), r)
            },
    {
        if self.stage != ImportStage::Classification {
            return ImportAction::OutOfTurn;
        }
        self.clean_up()
    }

    /// Ask for what is done to the working copy, or finish.
    fn clean_up(&mut self) -> (r: ImportAction)
        requires
            old(self).wf(),
            old(self).outcomes@.len() == old(self).commits@.len(),
            old(self).written.failure is None,
            import::takes_counts(old(self).stats, old(self).stats, old(self).written@),
            old(self).stats.commits_parsed == old(self).commits@.len(),
            old(self).takes_skips(),
        ensures
            final(self).wf(),
            *final(self) == (ImportRun { stage: final(self).stage, ..*old(self) }),
            cleans_up(*final(self), r),
    {
        match finish_mode(&self.importer.options) {
            FinishMode::Proved => self.finalize(),
            FinishMode::DropStaleCache => {
                self.stage = ImportStage::Cleanup;
                ImportAction::DropStaleCache
            },
            FinishMode::Reconcile => {
                self.stage = ImportStage::Cleanup;
                ImportAction::Reconcile
            },
        }
    }

    /// The working copy is brought in line: the import is over.
    pub fn cleaned_up(&mut self) -> (r: ImportAction)
        requires
            old(self).wf(),
        ensures
            final(self).wf(),
            if old(self).stage != ImportStage::Cleanup {
                *final(self) == *old(self) && r is OutOfTurn
            } else {
                *final(self) == (ImportRun { stage: ImportStage::Done, ..*old(self) })
                    && r is Finish
            },
    {
        if self.stage != ImportStage::Cleanup {
            return ImportAction::OutOfTurn;
        }
        self.finalize()
    }

    /// Verify that every commit is accounted for.
    fn finalize(&mut self) -> (r: ImportAction)
        requires
            old(self).outcomes@.len() == old(self).commits@.len(),
            old(self).commits@.len() <= usize::MAX,
            unstopped(old(self).written@) == import::counted_all(
                with_files(old(self).outcomes@, old(self).commits@),
            ),
            import::takes_counts(old(self).stats, old(self).stats, old(self).written@),
            old(self).stats.commits_parsed == old(self).commits@.len(),
            old(self).takes_skips(),
        ensures
            *final(self) == (ImportRun { stage: ImportStage::Done, ..*old(self) }),
            r is Finish,
    {
        proof {
            import::every_commit_is_accounted_for(with_files(self.outcomes@, self.commits@));
        }
        self.stage = ImportStage::Done;
        match self.importer.phase3_finalize(&self.stats) {
            Ok(_) => ImportAction::Finish,
            Err(error) => ImportAction::Fail { landed: None, error },
        }
    }

    /// Tell of the commits that were pushed from here, where there are any.
    pub fn notice(&self) -> (r: Option<String>)
        ensures
            match r {
                Some(t) => self.stats.self_push_skipped > 0 && t@ == import::skipped_text(
                    self.stats.self_push_skipped as nat,
                ),
                None => self.stats.self_push_skipped == 0,
            },
    {
        skipped_notice(&self.stats)
    }
}

/// Whether the run `b` asks for what its options do to the working copy, or
/// is over where they do nothing.
pub open spec fn cleans_up(b: ImportRun, r: ImportAction) -> bool {
    let o = b.importer.options;
    if o.validate_equivalence {
        b.stage == ImportStage::Done && r is Finish
    } else {
        b.stage == ImportStage::Cleanup && if o.preserve_working_copy {
            r is DropStaleCache
        } else {
            r is Reconcile
        }
    }
}

/// The paths that all commits put into the file index.
fn indexed_paths(commits: &Vec<VerifiedImportCommit>) -> (r: Vec<String>)
    ensures
        text::texts(r@) == all_indexed(commits@, commits@.len() as int),
{
    let mut out: Vec<String> = Vec::new();
    let mut i: usize = 0;
    assert(text::texts(out@) =~= all_indexed(commits@, 0));
    while i < commits.len()
        invariant
            i <= commits@.len(),
            text::texts(out@) == all_indexed(commits@, i as int),
        decreases commits@.len() - i,
    {
        let more = paths_to_index(&commits[i].parsed.files);
        let ghost before = text::texts(out@);
        let ghost fs = commit::file_views(commits@[i as int].parsed.files@);
        let ghost all = import::indexed(fs, fs.len() as int).map_values(
            |p: Seq<char>| text::replaced(p, '\\', '/'),
        );
        let mut j: usize = 0;
        assert(text::texts(out@) =~= before + all.take(0));
        while j < more.len()
            invariant
                j <= more@.len(),
                text::texts(more@) == import::indexed(fs, fs.len() as int),
                all == import::indexed(fs, fs.len() as int).map_values(
                    |p: Seq<char>| text::replaced(p, '\\', '/'),
                ),
                text::texts(out@) == before + all.take(j as int),
            decreases more@.len() - j,
        {
            let ghost done = text::texts(out@);
            assert(text::texts(more@)[j as int] == more@[j as int]@);
            let p = normalized_path(&more[j]);
            let ghost pv = p@;
            assert(pv == all[j as int]);
            out.push(p);
            assert(text::texts(out@) =~= done.push(pv));
            assert(text::texts(out@) =~= before + all.take(j as int + 1));
            j += 1;
        }
        assert(all.take(j as int) =~= all);
        i += 1;
    }
    out
}

/// An import that comes to its end has taken up every commit: each is
/// counted once by what came of it, and the statistics agree with the number
/// of parsed commits.
pub proof fn finished_imports_account_for_every_commit(run: ImportRun)
    requires
        run.wf(),
        run.stage == ImportStage::Classification || run.stage == ImportStage::Cleanup || run.stage
            == ImportStage::Done,
    ensures
        run.outcomes@.len() == run.commits@.len(),
        import::accounted_in(run.stats) == run.commits@.len(),
        import::accounted_in(run.stats) == run.stats.commits_parsed,
        run.takes_skips(),
{
    import::every_commit_is_accounted_for(with_files(run.outcomes@, run.commits@));
}

/// An import that stops early has not lost what landed: it is counted, and
/// no commit behind the one that failed was taken up.
pub proof fn stopped_imports_keep_what_landed(run: ImportRun)
    requires
        run.wf(),
        run.stage == ImportStage::Indexing,
        run.written.failure is Some,
    ensures
        import::accounted(unstopped(run.written@)) == run.outcomes@.len(),
        import::landed(run.written@) <= run.outcomes@.len(),
{
    import::every_commit_is_accounted_for(with_files(run.outcomes@, run.commits@));
}

/// Only own pushes are passed over: an import goes on to the first commit
/// that was not pushed from here, and nothing between is left out.
pub proof fn only_own_pushes_are_passed_over(
    cs: Seq<VerifiedImportCommit>,
    o: ParallelImportOptions,
    from: int,
    i: int,
)
    requires
        0 <= from <= cs.len(),
    ensures
        from <= next_commit(cs, o, from) <= cs.len(),
        from <= i < next_commit(cs, o, from) ==> import::skips_self_push(cs[i].parsed, o),
        next_commit(cs, o, from) < cs.len() ==> !import::skips_self_push(
            cs[next_commit(cs, o, from)].parsed,
            o,
        ),
    decreases cs.len() - from,
{
    if from < cs.len() && import::skips_self_push(cs[from].parsed, o) {
        only_own_pushes_are_passed_over(cs, o, from + 1, i);
    }
}

/// Every file that a commit leaves is put into the file index, by its path
/// with forward slashes.
pub proof fn every_left_file_is_indexed(
    cs: Seq<VerifiedImportCommit>,
    n: int,
    c: int,
    k: int,
)
    requires
        0 <= c < n <= cs.len(),
        0 <= k < cs[c].parsed.files@.len(),
        cs[c].parsed.files@[k]@.operation != commit::FileOperation::Deleted,
    ensures
        all_indexed(cs, n).contains(
            text::replaced(cs[c].parsed.files@[k]@.path, '\\', '/'),
        ),
    decreases n,
{
    let path = cs[c].parsed.files@[k]@.path;
    let want = text::replaced(path, '\\', '/');
    let head = all_indexed(cs, n - 1);
    let all = all_indexed(cs, n);
    if c < n - 1 {
        every_left_file_is_indexed(cs, n - 1, c, k);
        let j = choose|j: int| 0 <= j < head.len() && head[j] == want;
        assert(all[j] == want);
    } else {
        let fs = commit::file_views(cs[c].parsed.files@);
        assert(fs[k].path == path);
        import::indexed_paths_are_there(fs, fs.len() as int, path);
        let own = import::indexed(fs, fs.len() as int);
        let j = choose|j: int| 0 <= j < own.len() && own[j] == path;
        let shown = own.map_values(|p: Seq<char>| text::replaced(p, '\\', '/'));
        assert(shown[j] == want);
        assert(all[head.len() + j] == want);
    }
}

} // verus!
