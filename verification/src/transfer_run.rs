//! The run of a transfer: binding refs admitted one by one, sent as a whole,
//! and reported only once the remote holds every one of them.
use crate::error::{git_error, CliError};
use crate::text;
use crate::transport;
use crate::transport::{
    admit_transfer_ref, after_transfer_push, degraded_push_arguments, degraded_ref, transfer_ref,
    transfer_push_arguments, verify_remote_binding_refs, CarrierEvidence, TransferAction,
    TransferRef, BINDING_NAMESPACE, DEGRADED_HEAD_BINDING_PREFIX,
};
use vstd::prelude::*;

verus! {

/// How far a transfer has come: what it waits for.
#[derive(Clone, Copy, Debug, PartialEq, Eq, Structural)]
pub enum TransferStage {
    /// The binding id that the ref at hand carries.
    Admission,
    /// The stored binding and the carrier of the ref at hand.
    Carrier,
    /// The end of the push.
    Sending,
    /// What the remote holds.
    Verification,
    /// The end of the push that mirrors the ref at hand.
    Mirroring,
    /// What the remote holds of the mirrored refs.
    MirrorVerification,
    /// Nothing: the transfer is over.
    Done,
}

/// What is to be done next.
#[derive(Debug)]
pub enum TransferStep {
    /// Read the binding id that this ref carries, and the canonical ref of
    /// that id.
    Identify { name: String },
    /// Load the stored binding with this id, and verify the carrier of this
    /// ref.
    LoadCarrier { name: String, id: String },
    /// Run `git` with these arguments.
    RunGit { arguments: Vec<String> },
    /// Run `git` with these arguments, and read the refs that it lists.
    ListRefs { arguments: Vec<String> },
    /// The transfer is over: these refs are verified at these targets, with
    /// what the user is told.
    Finish { verified: Vec<TransferRef>, notice: Option<String> },
    /// The transfer failed.
    Fail { error: CliError },
    /// The transfer does not wait for this.
    OutOfTurn,
}

/// A transfer that is under way.
#[derive(Debug)]
pub struct TransferRun {
    pub remote: String,
    /// Whether the refs may be mirrored where the remote refuses them.
    pub degraded: bool,
    /// The ids of the stored bindings.
    pub stored_ids: Vec<String>,
    /// The refs to transfer.
    pub names: Vec<String>,
    pub stage: TransferStage,
    /// The number of the ref at hand.
    pub next: usize,
    /// The binding id of the ref at hand.
    pub id: String,
    /// The admitted refs, each with its verified carrier.
    pub refs: Vec<TransferRef>,
    /// The refs that were mirrored.
    pub mirrored: Vec<TransferRef>,
}

/// Why a refused transfer is not degraded.
pub open spec fn refused_namespace(remote: Seq<char>) -> Seq<char> {
    "git push of the binding namespace to '"@ + remote
        + "' failed; hosts that reject custom namespaces must not be silently degraded"@
}

/// Why a remote that cannot be listed is not reported.
pub open spec fn unlisted_remote(status: Seq<char>) -> Seq<char> {
    "remote verification of the binding namespace failed (ls-remote exited "@ + status
        + "); publication is NOT reported"@
}

/// Why a transfer with gaps is not reported.
pub open spec fn unverified_transfer(gaps: Seq<Seq<char>>) -> Seq<char> {
    "binding transfer verification FAILED \u{2014} publication not reported: "@ + text::joined(
        gaps,
        "; "@,
    )
}

/// What is told of a degraded transfer.
pub open spec fn degraded_notice() -> Seq<char> {
    "DEGRADED publication: binding refs were mirrored to "@ + DEGRADED_HEAD_BINDING_PREFIX@
        + "* after an explicit opt-in. This namespace is NOT semantically equivalent to refs/atomic/bindings/* and is visible to every Git client."@
}

/// Whether the transfer ended with the Git error `m`, and is otherwise as it
/// was.
pub open spec fn broke_off(
    a: TransferRun,
    b: TransferRun,
    r: TransferStep,
    m: Seq<char>,
) -> bool {
    b == (TransferRun { stage: TransferStage::Done, ..a }) && (r matches TransferStep::Fail { error }
        && error.is_git_error(m))
}

/// Whether two runs are of the same transfer.
pub open spec fn same_transfer(a: TransferRun, b: TransferRun) -> bool {
    &&& a.remote == b.remote
    &&& a.degraded == b.degraded
    &&& a.stored_ids == b.stored_ids
    &&& a.names == b.names
}

/// Whether the run `b` takes up its next ref, or sends all of them where
/// there is none left.
pub open spec fn takes_ref(b: TransferRun, r: TransferStep) -> bool {
    if b.next < b.names@.len() {
        b.stage == TransferStage::Admission && (r matches TransferStep::Identify { name } && name@
            == b.names@[b.next as int]@)
    } else {
        b.stage == TransferStage::Sending && (r matches TransferStep::RunGit { arguments }
            && text::texts(arguments@) == transport::transfer_arguments(
            b.remote@,
            transport::transfer_views(b.refs@),
        ))
    }
}

/// Whether the refs of a remote below a prefix are listed.
pub open spec fn lists_refs(r: TransferStep, remote: Seq<char>, prefix: Seq<char>) -> bool {
    r matches TransferStep::ListRefs { arguments } && text::texts(arguments@) == seq![
        "ls-remote"@,
        remote,
        prefix + "*"@,
    ]
}

fn listing_arguments(remote: &str, prefix: &str) -> (r: Vec<String>)
    ensures
        text::texts(r@) == seq!["ls-remote"@, remote@, prefix@ + "*"@],
{
    let mut pattern: String = prefix.to_owned();
    pattern.append("*");
    let r: Vec<String> = vec!["ls-remote".to_owned(), remote.to_owned(), pattern];
    assert(text::texts(r@) =~= seq!["ls-remote"@, remote@, prefix@ + "*"@]);
    r
}

/// Whether the run `b` mirrors its next ref, or lists the mirrored ones
/// where there is none left.
pub open spec fn mirrors_ref(b: TransferRun, r: TransferStep) -> bool {
    if b.next < b.refs@.len() {
        b.stage == TransferStage::Mirroring && (r matches TransferStep::RunGit { arguments }
            && text::texts(arguments@) == transport::transfer_arguments(
            b.remote@,
            seq![mirror_of(b.refs@[b.next as int]@)],
        ))
    } else {
        b.stage == TransferStage::MirrorVerification && lists_refs(
            r,
            b.remote@,
            DEGRADED_HEAD_BINDING_PREFIX@,
        )
    }
}

/// The mirror of a ref.
pub open spec fn mirror_of(t: transport::TransferRefView) -> transport::TransferRefView {
    transport::TransferRefView { name: transport::degraded_name(t.name), oid: t.oid }
}

impl TransferRun {
    /// Whether the admitted refs are those before the one at hand, in order.
    pub open spec fn wf(&self) -> bool {
        &&& self.refs@.len() <= self.names@.len()
        &&& forall|k: int|
            0 <= k < self.refs@.len() ==> (#[trigger] self.refs@[k]).name@ == self.names@[k]@
        &&& match self.stage {
            TransferStage::Admission | TransferStage::Carrier => self.next < self.names.len()
                && self.refs@.len() == self.next,
            TransferStage::Sending | TransferStage::Verification
            | TransferStage::MirrorVerification => self.refs@.len() == self.names@.len(),
            TransferStage::Mirroring => self.refs@.len() == self.names@.len() && self.next
                < self.refs.len(),
            TransferStage::Done => true,
        }
    }

    /// The refs that the remote has to hold.
    pub open spec fn expected(&self) -> Seq<transport::TransferRefView> {
        if self.stage == TransferStage::Verification {
            transport::transfer_views(self.refs@)
        } else {
            transport::transfer_views(self.mirrored@)
        }
    }

    /// Start a transfer. Without any ref it is over at once.
    pub fn begin(
        remote: String,
        degraded: bool,
        names: Vec<String>,
        stored_ids: Vec<String>,
    ) -> (r: (TransferRun, TransferStep))
        ensures
            r.0.wf(),
            r.0.remote == remote,
            r.0.degraded == degraded,
            r.0.names == names,
            r.0.stored_ids == stored_ids,
            r.0.refs@.len() == 0,
            r.0.mirrored@.len() == 0,
            if names@.len() == 0 {
                r.0.stage == TransferStage::Done && (r.1 matches TransferStep::Finish {
                    verified,
                    notice,
                } && verified@.len() == 0 && notice is None)
            } else {
                r.0.next == 0 && takes_ref(r.0, r.1)
            },
    {
        let mut run = TransferRun {
            remote,
            degraded,
            stored_ids,
            names,
            stage: TransferStage::Done,
            next: 0,
            id: String::new(),
            refs: Vec::new(),
            mirrored: Vec::new(),
        };
        if run.names.len() == 0 {
            return (run, TransferStep::Finish { verified: Vec::new(), notice: None });
        }
        let step = run.take_ref();
        (run, step)
    }

    fn fail(&mut self, error: CliError) -> (r: TransferStep)
        requires
            old(self).wf(),
        ensures
            final(self).wf(),
            *final(self) == (TransferRun { stage: TransferStage::Done, ..*old(self) }),
            r == (TransferStep::Fail { error }),
    {
        self.stage = TransferStage::Done;
        TransferStep::Fail { error }
    }

    /// What was to be done outside failed: the transfer is over.
    pub fn failed(&mut self, error: CliError) -> (r: TransferStep)
        requires
            old(self).wf(),
        ensures
            final(self).wf(),
            if old(self).stage == TransferStage::Done {
                *final(self) == *old(self) && r is OutOfTurn
            } else {
                *final(self) == (TransferRun { stage: TransferStage::Done, ..*old(self) }) && r
                    == (TransferStep::Fail { error })
            },
    {
        if self.stage == TransferStage::Done {
            return TransferStep::OutOfTurn;
        }
        self.fail(error)
    }

    fn take_ref(&mut self) -> (r: TransferStep)
        requires
            old(self).next <= old(self).names.len(),
            old(self).refs@.len() == old(self).next,
            forall|k: int|
                0 <= k < old(self).refs@.len() ==> (#[trigger] old(self).refs@[k]).name@ == old(
                    self,
                ).names@[k]@,
        ensures
            final(self).wf(),
            *final(self) == (TransferRun { stage: final(self).stage, ..*old(self) }),
            takes_ref(*final(self), r),
    {
        if self.next < self.names.len() {
            self.stage = TransferStage::Admission;
            return TransferStep::Identify { name: self.names[self.next].clone() };
        }
        self.stage = TransferStage::Sending;
        TransferStep::RunGit { arguments: transfer_push_arguments(&self.remote, &self.refs) }
    }

    /// The binding id that the ref at hand carries was read, and the
    /// canonical ref of that id.
    pub fn identified(&mut self, id: Option<&str>, canonical: &str) -> (r: TransferStep)
        requires
            old(self).wf(),
        ensures
            final(self).wf(),
            same_transfer(*old(self), *final(self)),
            ({
                let name = old(self).names@[old(self).next as int]@;
                if old(self).stage != TransferStage::Admission {
                    *final(self) == *old(self) && r is OutOfTurn
                } else {
                    match text::opt_str(id) {
                        None => broke_off(*old(self), *final(self), r,
                            transport::unregistered_ref_message(name),
                        ),
                        Some(i) => if name != canonical@ {
                            broke_off(*old(self), *final(self), r,
                                transport::reshaped_ref_message(name, i, canonical@),
                            )
                        } else if !text::texts(old(self).stored_ids@).contains(i) {
                            broke_off(*old(self), *final(self), r, transport::unbacked_ref_message(name))
                        } else {
                            &&& *final(self) == TransferRun {
                                stage: TransferStage::Carrier,
                                id: final(self).id,
                                ..*old(self)
                            }
                            &&& final(self).id@ == i
                            &&& r matches TransferStep::LoadCarrier { name: n, id: shown } && n@
                                == name && shown@ == i
                        },
                    }
                }
            }),
    {
        if self.stage != TransferStage::Admission {
            return TransferStep::OutOfTurn;
        }
        let name: String = self.names[self.next].clone();
        if let Err(e) = admit_transfer_ref(&name, id, canonical, &self.stored_ids) {
            return self.fail(e);
        }
        match id {
            Some(i) => {
                self.id = i.to_owned();
                self.stage = TransferStage::Carrier;
                TransferStep::LoadCarrier { name, id: i.to_owned() }
            },
            None => TransferStep::OutOfTurn,
        }
    }

    /// The stored binding of the ref at hand was loaded, or is gone, and its
    /// carrier was verified. Only a carrier of exactly the stored bytes
    /// travels.
    pub fn carrier_loaded(&mut self, stored: bool, carrier: Option<&CarrierEvidence>) -> (r:
        TransferStep)
        requires
            old(self).wf(),
        ensures
            final(self).wf(),
            same_transfer(*old(self), *final(self)),
            ({
                let name = old(self).names@[old(self).next as int]@;
                if old(self).stage != TransferStage::Carrier {
                    *final(self) == *old(self) && r is OutOfTurn
                } else if !stored {
                    broke_off(*old(self), *final(self), r,
                        transport::vanished_binding_message(old(self).id@),
                    )
                } else {
                    match carrier {
                        None => broke_off(*old(self), *final(self), r, transport::vanished_ref_message(name)),
                        Some(c) => if !c.same_bytes {
                            broke_off(*old(self), *final(self), r,
                                transport::foreign_bytes_message(name, old(self).id@),
                            )
                        } else {
                            &&& *final(self) == TransferRun {
                                stage: final(self).stage,
                                next: (old(self).next + 1) as usize,
                                refs: final(self).refs,
                                ..*old(self)
                            }
                            &&& transport::transfer_views(final(self).refs@)
                                == transport::transfer_views(old(self).refs@).push(
                                transport::TransferRefView { name, oid: c.oid@ },
                            )
                            &&& takes_ref(*final(self), r)
                        },
                    }
                }
            }),
    {
        if self.stage != TransferStage::Carrier {
            return TransferStep::OutOfTurn;
        }
        match transfer_ref(&self.names[self.next], &self.id, stored, carrier) {
            Ok(t) => {
                let ghost before = self.refs@;
                let ghost tv = t@;
                self.refs.push(t);
                assert(transport::transfer_views(self.refs@) =~= transport::transfer_views(
                    before,
                ).push(tv));
                self.next = self.next + 1;
                self.take_ref()
            },
            Err(e) => self.fail(e),
        }
    }

    /// What is told of a remote that refuses the refs, degraded or not.
    pub fn refusal(&self) -> (r: String)
        ensures
            r@ == refused_namespace(self.remote@),
    {
        let mut m: String = "git push of the binding namespace to '".to_owned();
        m.append(&self.remote);
        m.append("' failed; hosts that reject custom namespaces must not be silently degraded");
        m
    }

    /// The push ended. Where the remote refused it, the refs are mirrored
    /// only on request.
    pub fn sent(&mut self, success: bool) -> (r: TransferStep)
        requires
            old(self).wf(),
        ensures
            final(self).wf(),
            same_transfer(*old(self), *final(self)),
            if old(self).stage != TransferStage::Sending {
                *final(self) == *old(self) && r is OutOfTurn
            } else if success {
                *final(self) == (TransferRun { stage: TransferStage::Verification, ..*old(self) })
                    && lists_refs(r, old(self).remote@, transport::BINDING_NAMESPACE@)
            } else if old(self).degraded {
                &&& *final(self) == TransferRun {
                    stage: final(self).stage,
                    next: 0,
                    mirrored: final(self).mirrored,
                    ..*old(self)
                }
                &&& final(self).mirrored@.len() == 0
                &&& mirrors_ref(*final(self), r)
            } else {
                broke_off(*old(self), *final(self), r, refused_namespace(old(self).remote@))
            },
    {
        if self.stage != TransferStage::Sending {
            return TransferStep::OutOfTurn;
        }
        match after_transfer_push(success, self.degraded) {
            TransferAction::VerifyRemote => {
                self.stage = TransferStage::Verification;
                TransferStep::ListRefs {
                    arguments: listing_arguments(&self.remote, BINDING_NAMESPACE),
                }
            },
            TransferAction::Degrade => {
                self.next = 0;
                self.mirrored = Vec::new();
                self.mirror_ref()
            },
            TransferAction::Refuse => {
                let m = self.refusal();
                self.fail(git_error(m))
            },
        }
    }

    fn mirror_ref(&mut self) -> (r: TransferStep)
        requires
            old(self).refs@.len() == old(self).names@.len(),
            forall|k: int|
                0 <= k < old(self).refs@.len() ==> (#[trigger] old(self).refs@[k]).name@ == old(
                    self,
                ).names@[k]@,
        ensures
            final(self).wf(),
            *final(self) == (TransferRun { stage: final(self).stage, ..*old(self) }),
            mirrors_ref(*final(self), r),
    {
        if self.next < self.refs.len() {
            self.stage = TransferStage::Mirroring;
            return TransferStep::RunGit {
                arguments: degraded_push_arguments(&self.remote, &self.refs[self.next]),
            };
        }
        self.stage = TransferStage::MirrorVerification;
        TransferStep::ListRefs {
            arguments: listing_arguments(&self.remote, DEGRADED_HEAD_BINDING_PREFIX),
        }
    }

    /// The push that mirrors the ref at hand ended. A refused one is left
    /// out, and never counted as sent.
    pub fn mirror_sent(&mut self, success: bool) -> (r: TransferStep)
        requires
            old(self).wf(),
        ensures
            final(self).wf(),
            same_transfer(*old(self), *final(self)),
            ({
                let t = mirror_of(old(self).refs@[old(self).next as int]@);
                let sent = transport::transfer_views(old(self).mirrored@);
                if old(self).stage != TransferStage::Mirroring {
                    *final(self) == *old(self) && r is OutOfTurn
                } else {
                    &&& *final(self) == TransferRun {
                        stage: final(self).stage,
                        next: (old(self).next + 1) as usize,
                        mirrored: final(self).mirrored,
                        ..*old(self)
                    }
                    &&& transport::transfer_views(final(self).mirrored@) == (if success {
                        sent.push(t)
                    } else {
                        sent
                    })
                    &&& mirrors_ref(*final(self), r)
                }
            }),
    {
        if self.stage != TransferStage::Mirroring {
            return TransferStep::OutOfTurn;
        }
        if success {
            let ghost before = self.mirrored@;
            let at: &TransferRef = &self.refs[self.next];
            let t = TransferRef { name: degraded_ref(&at.name), oid: at.oid.clone() };
            let ghost tv = t@;
            self.mirrored.push(t);
            assert(transport::transfer_views(self.mirrored@) =~= transport::transfer_views(
                before,
            ).push(tv));
        }
        self.next = self.next + 1;
        self.mirror_ref()
    }

    /// The refs of the remote were listed: the transfer is reported only
    /// where each of its refs is there, at its exact target.
    pub fn listed(&mut self, success: bool, status: &str, output: &str) -> (r: TransferStep)
        requires
            old(self).wf(),
        ensures
            final(self).wf(),
            same_transfer(*old(self), *final(self)),
            ({
                let waits = old(self).stage == TransferStage::Verification || old(self).stage
                    == TransferStage::MirrorVerification;
                let ls = text::lines_of(output@);
                let gaps = transport::ref_gaps(old(self).expected(), ls);
                if !waits {
                    *final(self) == *old(self) && r is OutOfTurn
                } else if !success {
                    broke_off(*old(self), *final(self), r, unlisted_remote(status@))
                } else if gaps.len() > 0 {
                    broke_off(*old(self), *final(self), r, unverified_transfer(gaps))
                } else {
                    &&& *final(self) == TransferRun { stage: TransferStage::Done, ..*old(self) }
                    &&& r matches TransferStep::Finish { verified, notice } && transport::transfer_views(
                        verified@,
                    ) == old(self).expected() && text::opt_text(notice)
                        == (if old(self).stage == TransferStage::Verification {
                        None
                    } else {
                        Some(degraded_notice())
                    })
                    &&& forall|i: int|
                        0 <= i < old(self).expected().len() ==> transport::observed_at(
                            ls,
                            (#[trigger] old(self).expected()[i]).name,
                        ) == Some(old(self).expected()[i].oid)
                }
            }),
    {
        if self.stage != TransferStage::Verification && self.stage
            != TransferStage::MirrorVerification {
            return TransferStep::OutOfTurn;
        }
        if !success {
            let mut m: String =
                "remote verification of the binding namespace failed (ls-remote exited ".to_owned();
            m.append(status);
            m.append("); publication is NOT reported");
            return self.fail(git_error(m));
        }
        let whole: bool = self.stage == TransferStage::Verification;
        let checked = if whole {
            verify_remote_binding_refs(output, &self.refs)
        } else {
            verify_remote_binding_refs(output, &self.mirrored)
        };
        match checked {
            Ok(verified) => {
                proof {
                    let expected = self.expected();
                    let ls = text::lines_of(output@);
                    assert forall|i: int| 0 <= i < expected.len() implies transport::observed_at(
                        ls,
                        (#[trigger] expected[i]).name,
                    ) == Some(expected[i].oid) by {
                        transport::verification_has_no_gap(expected, ls, i);
                    }
                }
                let notice: Option<String> = if whole {
                    None
                } else {
                    let mut m: String =
                        "DEGRADED publication: binding refs were mirrored to ".to_owned();
                    m.append(DEGRADED_HEAD_BINDING_PREFIX);
                    m.append(
                        "* after an explicit opt-in. This namespace is NOT semantically equivalent to refs/atomic/bindings/* and is visible to every Git client.",
                    );
                    Some(m)
                };
                self.stage = TransferStage::Done;
                TransferStep::Finish { verified, notice }
            },
            Err(e) => self.fail(e),
        }
    }
}

/// What is sent is exactly what was admitted: one ref for each name, in
/// order.
pub proof fn every_named_ref_is_sent(run: TransferRun, k: int)
    requires
        run.wf(),
        run.stage == TransferStage::Sending,
        0 <= k < run.names@.len(),
    ensures
        run.refs@.len() == run.names@.len(),
        run.refs@[k].name@ == run.names@[k]@,
{
}

} // verus!
