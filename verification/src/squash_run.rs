//! The run of a squash: its original changes inserted in its place, or taken
//! back where they do not lead to its tree.
use crate::commit;
use crate::commit::ParsedCommit;
use crate::graph;
use crate::graph::ContentHash;
use crate::ledger::clone_hashes;
use crate::squash;
use crate::squash::{
    resolve_originals, rollback_order, squash_claim, squash_info, squash_insert_matches_tree,
    ImportedCommitInfo, SquashInsert,
};
use crate::text;
use crate::text::{chars_of, clone_texts, string_of};
use vstd::prelude::*;

verus! {

/// How far a squash has come: what it waits for.
#[derive(Clone, Copy, Debug, PartialEq, Eq, Structural)]
pub enum SquashStage {
    /// The originals.
    Originals,
    /// The insertion of the original at hand.
    Insertion,
    /// What the target view holds for the touched paths.
    Held,
    /// The end of the rollback.
    Rollback,
    /// The anchor of the commit.
    Anchor,
    /// Nothing: it is decided.
    Done,
}

/// What is to be done next.
#[derive(Debug)]
pub enum SquashAction {
    /// Find the changes with these hashes.
    FindOriginals { hashes: Vec<String> },
    /// Insert this change, with what it depends on, into the target view.
    Insert { change: ContentHash },
    /// Read what the target view holds for every file of the commit.
    ReadHeld,
    /// Warn, and take these changes back in this order.
    TakeBack { warning: String, changes: Vec<ContentHash> },
    /// Index the commit as this change, where there is one, and record the
    /// closure of the commit.
    Anchor { tip: Option<ContentHash>, closure: Vec<ContentHash> },
    /// The commit is not of this kind.
    NotSquash,
    /// The commit is left out, after this warning where there is one.
    Skipped { warning: Option<String> },
    /// The originals stand for the commit; a warning tells that its closure
    /// is not recorded.
    Inserted { info: ImportedCommitInfo, warning: Option<String> },
    /// The run does not wait for this.
    OutOfTurn,
}

/// A squash that is under way.
#[derive(Debug)]
pub struct SquashRun<'a> {
    pub parsed: &'a ParsedCommit,
    pub stage: SquashStage,
    /// What the commit claims.
    pub claim: Option<SquashInsert>,
    pub originals: Vec<ContentHash>,
    /// The number of the original at hand.
    pub next: usize,
    /// What the insertions added to the target view, in order.
    pub applied: Vec<ContentHash>,
}

/// A hash as warnings show it: its first twelve characters.
pub open spec fn shown_hash(hash: Seq<char>) -> Seq<char> {
    if hash.len() <= 12 {
        hash
    } else {
        hash.take(12)
    }
}

fn show_hash(hash: &str) -> (r: String)
    ensures
        r@ == shown_hash(hash@),
{
    let cs = chars_of(hash);
    let end: usize = if cs.len() <= 12 {
        cs.len()
    } else {
        12
    };
    let r = string_of(&cs, 0, end);
    assert(r@ =~= shown_hash(hash@));
    r
}

/// The warning of a squash whose original cannot be inserted.
pub open spec fn insertion_failed_text(short_sha: Seq<char>, change: Seq<char>, why: Seq<char>) -> Seq<
    char,
> {
    "Squash "@ + short_sha + ": failed to insert original "@ + shown_hash(change) + ": "@ + why
        + "; skipping."@
}

/// The warning of a squash that diverges.
pub open spec fn diverged_text(short_sha: Seq<char>) -> Seq<char> {
    "Squash "@ + short_sha
        + ": inserting its originals diverges from the git tree (manual conflict resolution?); skipping. The shared view was left unchanged."@
}

/// The warning of a squash whose closure is not recorded.
pub open spec fn unrecorded_closure_text(short_sha: Seq<char>, why: Seq<char>) -> Seq<char> {
    "Squash "@ + short_sha + ": could not persist its interpretation closure ("@ + why
        + "); later incremental imports may refuse descendants of it."@
}

/// Whether the target view holds, for every file of a commit, what the
/// commit says.
pub open spec fn reproduces(p: ParsedCommit, held: Seq<Option<Vec<u8>>>) -> bool {
    forall|i: int|
        0 <= i < p.files@.len() ==> squash::file_matches(
            #[trigger] commit::file_views(p.files@)[i],
            graph::opt_bytes(held[i]),
        )
}

/// Whether the run `b` inserts its next original, or looks at the target
/// view where there is none left.
pub open spec fn inserts_next(b: SquashRun, r: SquashAction) -> bool {
    if b.next < b.originals@.len() {
        b.stage == SquashStage::Insertion && r == (SquashAction::Insert {
            change: b.originals@[b.next as int],
        })
    } else {
        b.stage == SquashStage::Held && r is ReadHeld
    }
}

impl<'a> SquashRun<'a> {
    /// Whether the claim of the commit is at hand while it is needed, and an
    /// original is while it is inserted.
    pub open spec fn wf(&self) -> bool {
        &&& self.stage != SquashStage::Done ==> squash::opt_squash(self.claim)
            == squash::squash_originals(*self.parsed) && self.claim is Some
        &&& self.next <= self.originals.len()
        &&& self.stage == SquashStage::Insertion ==> self.next < self.originals.len()
        &&& self.stage == SquashStage::Held || self.stage == SquashStage::Anchor ==> self.next
            == self.originals.len()
    }

    /// Start with a commit. One that names no originals is no squash.
    pub fn begin(parsed: &'a ParsedCommit) -> (r: (SquashRun<'a>, SquashAction))
        ensures
            r.0.wf(),
            r.0.parsed == parsed,
            r.0.applied@.len() == 0,
            r.0.originals@.len() == 0,
            r.0.next == 0,
            match squash::squash_originals(*parsed) {
                None => r.0.stage == SquashStage::Done && r.1 is NotSquash,
                Some(s) => r.0.stage == SquashStage::Originals && (
                r.1 matches SquashAction::FindOriginals { hashes } && text::texts(hashes@)
                    == s.original_hashes),
            },
    {
        let claim = squash_claim(parsed);
        let action = match &claim {
            None => SquashAction::NotSquash,
            Some(s) => SquashAction::FindOriginals { hashes: clone_texts(&s.original_hashes) },
        };
        let stage = match &claim {
            None => SquashStage::Done,
            Some(_) => SquashStage::Originals,
        };
        let run = SquashRun {
            parsed,
            stage,
            claim,
            originals: Vec::new(),
            next: 0,
            applied: Vec::new(),
        };
        (run, action)
    }

    fn go_on(&mut self) -> (r: SquashAction)
        requires
            old(self).next <= old(self).originals.len(),
            squash::opt_squash(old(self).claim) == squash::squash_originals(*old(self).parsed),
            old(self).claim is Some,
        ensures
            final(self).wf(),
            *final(self) == (SquashRun { stage: final(self).stage, ..*old(self) }),
            inserts_next(*final(self), r),
    {
        if self.next < self.originals.len() {
            self.stage = SquashStage::Insertion;
            SquashAction::Insert { change: self.originals[self.next] }
        } else {
            self.stage = SquashStage::Held;
            SquashAction::ReadHeld
        }
    }

    fn take_back(&mut self, warning: String) -> (r: SquashAction)
        requires
            old(self).wf(),
            old(self).stage != SquashStage::Done,
        ensures
            final(self).wf(),
            *final(self) == (SquashRun { stage: SquashStage::Rollback, ..*old(self) }),
            r matches SquashAction::TakeBack { warning: w, changes } && w == warning && changes@
                == old(self).applied@.reverse(),
    {
        let changes = rollback_order(&self.applied);
        self.stage = SquashStage::Rollback;
        SquashAction::TakeBack { warning, changes }
    }

    /// The originals were looked for: for each its hash, where the text is a
    /// hash and the change is there.
    pub fn originals_found(&mut self, found: &Vec<Option<ContentHash>>) -> (r: SquashAction)
        requires
            old(self).wf(),
        ensures
            final(self).wf(),
            if old(self).stage != SquashStage::Originals || found@.len()
                != old(self).claim->0.original_hashes@.len() {
                *final(self) == *old(self) && r is OutOfTurn
            } else {
                match squash::resolved(found@, 0) {
                    Ok(hs) => *final(self) == (SquashRun {
                        stage: final(self).stage,
                        originals: final(self).originals,
                        next: 0,
                        ..*old(self)
                    }) && final(self).originals@ == hs && inserts_next(*final(self), r),
                    Err(k) => *final(self) == (SquashRun {
                        stage: SquashStage::Done,
                        ..*old(self)
                    }) && (
                    r matches SquashAction::Skipped { warning } && text::opt_text(warning) == Some(
                        squash::missing_original_text(
                            old(self).parsed.short_sha@,
                            old(self).claim->0.original_hashes@[k]@,
                        ),
                    )),
                }
            },
    {
        if self.stage != SquashStage::Originals {
            return SquashAction::OutOfTurn;
        }
        let resolution = match &self.claim {
            Some(s) => {
                if found.len() != s.original_hashes.len() {
                    return SquashAction::OutOfTurn;
                }
                resolve_originals(&self.parsed.short_sha, s, found)
            },
            None => {
                return SquashAction::OutOfTurn;
            },
        };
        match resolution {
            Ok(originals) => {
                self.originals = originals;
                self.next = 0;
                self.go_on()
            },
            Err(warning) => {
                self.stage = SquashStage::Done;
                SquashAction::Skipped { warning: Some(warning) }
            },
        }
    }

    /// The original at hand was inserted; `added` is what that added to the
    /// target view.
    pub fn inserted(&mut self, added: &Vec<ContentHash>) -> (r: SquashAction)
        requires
            old(self).wf(),
        ensures
            final(self).wf(),
            if old(self).stage != SquashStage::Insertion {
                *final(self) == *old(self) && r is OutOfTurn
            } else {
                *final(self) == (SquashRun {
                    stage: final(self).stage,
                    applied: final(self).applied,
                    next: (old(self).next + 1) as usize,
                    ..*old(self)
                }) && final(self).applied@ == old(self).applied@ + added@ && inserts_next(
                    *final(self),
                    r,
                )
            },
    {
        if self.stage != SquashStage::Insertion {
            return SquashAction::OutOfTurn;
        }
        let ghost before = self.applied@;
        let mut more = clone_hashes(added);
        self.applied.append(&mut more);
        assert(self.applied@ =~= before + added@);
        self.next = self.next + 1;
        self.go_on()
    }

    /// The original at hand, whose hash reads `change`, could not be inserted:
    /// what was added so far is taken back.
    pub fn insertion_failed(&mut self, change: &str, why: &str) -> (r: SquashAction)
        requires
            old(self).wf(),
        ensures
            final(self).wf(),
            if old(self).stage != SquashStage::Insertion {
                *final(self) == *old(self) && r is OutOfTurn
            } else {
                *final(self) == (SquashRun { stage: SquashStage::Rollback, ..*old(self) }) && (
                r matches SquashAction::TakeBack { warning, changes } && warning@
                    == insertion_failed_text(old(self).parsed.short_sha@, change@, why@) && changes@
                    == old(self).applied@.reverse())
            },
    {
        if self.stage != SquashStage::Insertion {
            return SquashAction::OutOfTurn;
        }
        let mut m: String = "Squash ".to_owned();
        m.append(&self.parsed.short_sha);
        m.append(": failed to insert original ");
        m.append(&show_hash(change));
        m.append(": ");
        m.append(why);
        m.append("; skipping.");
        self.take_back(m)
    }

    /// What the target view holds for every file of the commit was read. It
    /// has to be what the commit says.
    pub fn held_read(&mut self, held: &Vec<Option<Vec<u8>>>) -> (r: SquashAction)
        requires
            old(self).wf(),
        ensures
            final(self).wf(),
            ({
                let p = *old(self).parsed;
                if old(self).stage != SquashStage::Held || held@.len() != p.files@.len() {
                    *final(self) == *old(self) && r is OutOfTurn
                } else if reproduces(p, held@) {
                    let tip = squash::tip_of(old(self).originals@);
                    *final(self) == (SquashRun { stage: SquashStage::Anchor, ..*old(self) }) && (
                    r matches SquashAction::Anchor { tip: t, closure } && t == (if tip
                        == graph::no_hash() {
                        None
                    } else {
                        Some(tip)
                    }) && closure@ == old(self).originals@)
                } else {
                    *final(self) == (SquashRun { stage: SquashStage::Rollback, ..*old(self) }) && (
                    r matches SquashAction::TakeBack { warning, changes } && warning@
                        == diverged_text(p.short_sha@) && changes@
                        == old(self).applied@.reverse())
                }
            }),
    {
        if self.stage != SquashStage::Held || held.len() != self.parsed.files.len() {
            return SquashAction::OutOfTurn;
        }
        if !squash_insert_matches_tree(&self.parsed.files, held) {
            let mut m: String = "Squash ".to_owned();
            m.append(&self.parsed.short_sha);
            m.append(
                ": inserting its originals diverges from the git tree (manual conflict resolution?); skipping. The shared view was left unchanged.",
            );
            return self.take_back(m);
        }
        let tip: Option<ContentHash> = if self.originals.len() > 0 {
            let last = self.originals[self.originals.len() - 1];
            if last == ContentHash::none() {
                None
            } else {
                Some(last)
            }
        } else {
            None
        };
        let closure = clone_hashes(&self.originals);
        self.stage = SquashStage::Anchor;
        SquashAction::Anchor { tip, closure }
    }

    /// What was added is taken back: the commit is left out.
    pub fn taken_back(&mut self) -> (r: SquashAction)
        requires
            old(self).wf(),
        ensures
            final(self).wf(),
            if old(self).stage != SquashStage::Rollback {
                *final(self) == *old(self) && r is OutOfTurn
            } else {
                *final(self) == (SquashRun { stage: SquashStage::Done, ..*old(self) }) && r == (
                SquashAction::Skipped { warning: None })
            },
    {
        if self.stage != SquashStage::Rollback {
            return SquashAction::OutOfTurn;
        }
        self.stage = SquashStage::Done;
        SquashAction::Skipped { warning: None }
    }

    /// The commit is anchored. Where its closure could not be recorded, the
    /// user is warned.
    pub fn anchored(&mut self, closure_error: Option<&str>) -> (r: SquashAction)
        requires
            old(self).wf(),
        ensures
            final(self).wf(),
            if old(self).stage != SquashStage::Anchor {
                *final(self) == *old(self) && r is OutOfTurn
            } else {
                let p = *old(self).parsed;
                &&& *final(self) == SquashRun {
                    stage: SquashStage::Done,
                    claim: None,
                    ..*old(self)
                }
                &&& r matches SquashAction::Inserted { info, warning } && squash::describes(
                    info,
                    p,
                    squash::tip_of(old(self).originals@),
                ) && !info.is_merge && squash::opt_squash(info.squash_insert)
                    == squash::squash_originals(p) && text::opt_text(warning) == (
                match text::opt_str(closure_error) {
                    Some(why) => Some(unrecorded_closure_text(p.short_sha@, why)),
                    None => None,
                })
            },
    {
        if self.stage != SquashStage::Anchor {
            return SquashAction::OutOfTurn;
        }
        let warning: Option<String> = match closure_error {
            Some(why) => {
                let mut m: String = "Squash ".to_owned();
                m.append(&self.parsed.short_sha);
                m.append(": could not persist its interpretation closure (");
                m.append(why);
                m.append("); later incremental imports may refuse descendants of it.");
                Some(m)
            },
            None => None,
        };
        let claim = self.claim.take();
        match claim {
            Some(s) => {
                self.stage = SquashStage::Done;
                SquashAction::Inserted {
                    info: squash_info(self.parsed, s, &self.originals),
                    warning,
                }
            },
            None => SquashAction::OutOfTurn,
        }
    }
}

/// A squash that is left out leaves the target view as it was: taking back
/// what its run was told to take back undoes everything that its insertions
/// added.
pub proof fn skipped_squashes_leave_no_trace(view: Seq<ContentHash>, run: SquashRun, r: SquashAction)
    requires
        r matches SquashAction::TakeBack { changes, .. } && changes@ == run.applied@.reverse(),
    ensures
        squash::taken_back(view + run.applied@, r->changes@) == view,
{
    squash::rollback_restores_the_view(view, run.applied@);
}

} // verus!
