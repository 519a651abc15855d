//! Binding transport: fetch refspecs, the bounded create-only publication
//! queue, the transfer of binding refs and the leases of remote updates.
use crate::error::{git_error, CliError};
use crate::paths;
use crate::paths::less_text;
use crate::text;
use crate::text::{contains_text, join, lines, same_text, strip_prefix, trim, words};
use vstd::prelude::*;

verus! {

/// The fetch refspec of the create-only binding namespace.
pub const BINDING_REFSPEC: &'static str = "+refs/atomic/bindings/*:refs/atomic/bindings/*";

/// The fetch refspec of draft-view projection refs.
pub const VIEWS_REFSPEC: &'static str = "+refs/atomic/views/*:refs/atomic/views/*";

/// Default bound on the publication queue, per run.
pub const QUEUE_MAX_DEFAULT: usize = 64;

/// The namespace of binding refs.
pub const BINDING_NAMESPACE: &'static str = "refs/atomic/bindings/";

/// The branch namespace of degraded binding refs.
pub const DEGRADED_HEAD_BINDING_PREFIX: &'static str = "refs/heads/atomic/bindings/";

/// The fetch refspecs that a remote with the refspecs `existing` lacks.
pub open spec fn missing_refspecs(existing: Seq<Seq<char>>) -> Seq<Seq<char>> {
    let first: Seq<Seq<char>> = if existing.contains(BINDING_REFSPEC@) {
        seq![]
    } else {
        seq![BINDING_REFSPEC@]
    };
    if existing.contains(VIEWS_REFSPEC@) {
        first
    } else {
        first.push(VIEWS_REFSPEC@)
    }
}

/// The fetch refspecs to add for a remote whose configured fetch refspecs
/// are `existing`: each explicit refspec that is not there yet, never one
/// that is.
pub fn configure_fetch_refspecs(existing: &Vec<String>) -> (r: Vec<String>)
    ensures
        text::texts(r@) == missing_refspecs(text::texts(existing@)),
{
    let mut out: Vec<String> = Vec::new();
    if !contains_text(existing, BINDING_REFSPEC) {
        out.push(BINDING_REFSPEC.to_owned());
    }
    let ghost first = text::texts(out@);
    if !contains_text(existing, VIEWS_REFSPEC) {
        out.push(VIEWS_REFSPEC.to_owned());
        assert(text::texts(out@) =~= first.push(VIEWS_REFSPEC@));
    }
    assert(text::texts(out@) =~= missing_refspecs(text::texts(existing@)));
    out
}

/// Adding what is missing leaves nothing missing: a second run adds nothing.
pub proof fn refspec_configuration_is_idempotent(existing: Seq<Seq<char>>)
    ensures
        missing_refspecs(existing + missing_refspecs(existing)) == Seq::<Seq<char>>::empty(),
{
    let added = missing_refspecs(existing);
    let now = existing + added;
    assert(now.contains(BINDING_REFSPEC@)) by {
        if existing.contains(BINDING_REFSPEC@) {
            let i: int = choose|i: int|
                0 <= i < existing.len() && existing[i] == BINDING_REFSPEC@;
            assert(now[i] == BINDING_REFSPEC@);
        } else {
            assert(now[existing.len() as int] == BINDING_REFSPEC@);
        }
    }
    assert(now.contains(VIEWS_REFSPEC@)) by {
        if existing.contains(VIEWS_REFSPEC@) {
            let i: int = choose|i: int| 0 <= i < existing.len() && existing[i] == VIEWS_REFSPEC@;
            assert(now[i] == VIEWS_REFSPEC@);
        } else {
            assert(now[now.len() - 1] == VIEWS_REFSPEC@);
        }
    }
}

/// One queue item outcome.
#[derive(Clone, Copy, Debug, PartialEq, Eq, Structural)]
pub enum QueueItemOutcome {
    /// The local create-only ref was created this run.
    Published,
    /// The ref already held exactly this binding's commit.
    AlreadyPresent,
    /// No stored binding exists for this id.
    Unresolvable,
}

/// What one bounded queue run did.
#[derive(Debug)]
pub struct QueueOutcome {
    /// Locally created create-only refs.
    pub published: usize,
    /// Refs that already held the identical binding commit.
    pub already_present: usize,
    /// Stored bindings that failed to load (never published).
    pub unresolvable: usize,
    /// The binding refs the run considered, in deterministic order.
    pub refs: Vec<String>,
}

/// A `QueueOutcome` as a value.
pub struct QueueView {
    pub published: nat,
    pub already_present: nat,
    pub unresolvable: nat,
    pub refs: Seq<Seq<char>>,
}

impl View for QueueOutcome {
    type V = QueueView;

    open spec fn view(&self) -> QueueView {
        QueueView {
            published: self.published as nat,
            already_present: self.already_present as nat,
            unresolvable: self.unresolvable as nat,
            refs: text::texts(self.refs@),
        }
    }
}

impl QueueView {
    /// How many considered refs have an outcome.
    pub open spec fn settled(self) -> nat {
        self.published + self.already_present + self.unresolvable
    }

    /// The queue after one more considered ref.
    pub open spec fn consider(self, name: Seq<char>) -> QueueView {
        QueueView { refs: self.refs.push(name), ..self }
    }

    /// The queue after the last considered ref came out as `o`.
    pub open spec fn count(self, o: QueueItemOutcome) -> QueueView {
        match o {
            QueueItemOutcome::Published => QueueView { published: self.published + 1, ..self },
            QueueItemOutcome::AlreadyPresent => QueueView {
                already_present: self.already_present + 1,
                ..self
            },
            QueueItemOutcome::Unresolvable => QueueView {
                unresolvable: self.unresolvable + 1,
                ..self
            },
        }
    }
}

/// What the queue wants done for the binding at hand.
#[derive(Clone, Copy, Debug, PartialEq, Eq, Structural)]
pub enum QueueAction {
    /// The bound is reached: end the run.
    Stop,
    /// The binding has its outcome: go on with the next one.
    Next,
    /// Validate the carrier that the binding's ref holds, if it exists.
    InspectCarrier,
    /// Publish the binding through its journaled create-only path.
    Publish,
}

/// What the ref of a stored binding was found to hold.
pub enum CarrierState {
    /// The ref does not exist.
    Absent,
    /// A valid carrier of exactly the stored bytes.
    Identical,
    /// A valid carrier of other bytes.
    Differing,
    /// No verifiable carrier, with the reason.
    Unverifiable(String),
}

/// The refusal of a ref that carries other bytes than the stored binding.
pub open spec fn differing_carrier_message(name: Seq<char>, id: Seq<char>) -> Seq<char> {
    "binding ref '"@ + name + "' publishes binding "@ + id
        + " with bytes differing from the stored binding; refusing to treat it as present or to transfer it"@
}

/// The refusal of a ref whose carrier does not verify.
pub open spec fn unverifiable_carrier_message(
    name: Seq<char>,
    id: Seq<char>,
    error: Seq<char>,
) -> Seq<char> {
    "binding ref '"@ + name + "' exists but is not a verifiable carrier of stored binding "@ + id
        + " (create-only violation, refusing to transfer or overwrite): "@ + error
}

impl QueueOutcome {
    /// Every considered ref has exactly one outcome.
    pub open spec fn settled(&self) -> bool {
        self@.settled() == self.refs@.len()
    }

    /// The last considered ref still waits for its outcome.
    pub open spec fn pending(&self) -> bool {
        self@.settled() + 1 == self.refs@.len()
    }

    /// The outcome of a run that considered nothing.
    pub fn new() -> (r: QueueOutcome)
        ensures
            r@ == (QueueView { published: 0, already_present: 0, unresolvable: 0, refs: seq![] }),
            r.settled(),
    {
        let r = QueueOutcome {
            published: 0,
            already_present: 0,
            unresolvable: 0,
            refs: Vec::new(),
        };
        assert(r@.refs =~= seq![]);
        r
    }

    /// Whether every considered binding ended up published or idempotent.
    pub fn all_local_ok(&self) -> (r: bool)
        ensures
            r == (self@.unresolvable == 0),
    {
        self.unresolvable == 0
    }

    /// Take up the binding behind the ref `name`; `stored` says whether its
    /// stored form could be loaded. Nothing is considered any more once
    /// `max` refs were created.
    pub fn take_up(&mut self, name: String, stored: bool, max: usize) -> (r: QueueAction)
        requires
            old(self).settled(),
        ensures
            old(self)@.published >= max ==> r == QueueAction::Stop && final(self)@ == old(self)@
                && final(self).settled(),
            old(self)@.published < max && !stored ==> r == QueueAction::Next && final(self)@
                == old(self)@.consider(name@).count(QueueItemOutcome::Unresolvable)
                && final(self).settled(),
            old(self)@.published < max && stored ==> r == QueueAction::InspectCarrier
                && final(self)@ == old(self)@.consider(name@) && final(self).pending(),
    {
        if self.published >= max {
            return QueueAction::Stop;
        }
        let ghost nv = name@;
        let ghost before = self@;
        let n: usize = self.refs.len();
        self.refs.push(name);
        let m: usize = self.refs.len();
        assert(text::texts(self.refs@) =~= before.refs.push(nv));
        if stored {
            QueueAction::InspectCarrier
        } else {
            self.unresolvable += 1;
            QueueAction::Next
        }
    }

    /// Decide on the considered binding `id` from what its ref holds. An
    /// existing ref may only hold this binding already; anything else ends
    /// the run without an overwrite.
    pub fn inspect(&mut self, name: &str, id: &str, state: &CarrierState) -> (r: Result<
        QueueAction,
        CliError,
    >)
        requires
            old(self).pending(),
        ensures
            match *state {
                CarrierState::Absent => r == Ok::<QueueAction, CliError>(QueueAction::Publish)
                    && final(self)@ == old(self)@ && final(self).pending(),
                CarrierState::Identical => r == Ok::<QueueAction, CliError>(QueueAction::Next)
                    && final(self)@ == old(self)@.count(QueueItemOutcome::AlreadyPresent)
                    && final(self).settled(),
                CarrierState::Differing => r matches Err(e) && e.is_git_error(
                    differing_carrier_message(name@, id@),
                ) && final(self)@ == old(self)@,
                CarrierState::Unverifiable(why) => r matches Err(e) && e.is_git_error(
                    unverifiable_carrier_message(name@, id@, why@),
                ) && final(self)@ == old(self)@,
            },
    {
        match state {
            CarrierState::Absent => Ok(QueueAction::Publish),
            CarrierState::Identical => {
                let n: usize = self.refs.len();
                self.already_present += 1;
                Ok(QueueAction::Next)
            },
            CarrierState::Differing => {
                let mut m: String = "binding ref '".to_owned();
                m.append(name);
                m.append("' publishes binding ");
                m.append(id);
                m.append(
                    " with bytes differing from the stored binding; refusing to treat it as present or to transfer it",
                );
                Err(git_error(m))
            },
            CarrierState::Unverifiable(why) => {
                let mut m: String = "binding ref '".to_owned();
                m.append(name);
                m.append("' exists but is not a verifiable carrier of stored binding ");
                m.append(id);
                m.append(" (create-only violation, refusing to transfer or overwrite): ");
                m.append(why);
                Err(git_error(m))
            },
        }
    }

    /// Count the publication of the considered binding: `created` says
    /// whether its ref is new.
    pub fn publication(&mut self, created: bool) -> (r: QueueItemOutcome)
        requires
            old(self).pending(),
        ensures
            r == (if created {
                QueueItemOutcome::Published
            } else {
                QueueItemOutcome::AlreadyPresent
            }),
            final(self)@ == old(self)@.count(r),
            final(self).settled(),
    {
        let n: usize = self.refs.len();
        if created {
            self.published += 1;
            QueueItemOutcome::Published
        } else {
            self.already_present += 1;
            QueueItemOutcome::AlreadyPresent
        }
    }
}

/// What a run comes to: the bindings are taken up in turn, each with its ref
/// and how it comes out, until `max` refs were created.
pub open spec fn run_of(items: Seq<(Seq<char>, QueueItemOutcome)>, max: nat) -> QueueView
    decreases items.len(),
{
    if items.len() == 0 {
        QueueView { published: 0, already_present: 0, unresolvable: 0, refs: seq![] }
    } else {
        let q = run_of(items.drop_last(), max);
        if q.published >= max {
            q
        } else {
            q.consider(items.last().0).count(items.last().1)
        }
    }
}

/// A run never creates more refs than its bound, and every binding that it
/// considered has exactly one outcome.
pub proof fn queue_is_bounded(items: Seq<(Seq<char>, QueueItemOutcome)>, max: nat)
    ensures
        run_of(items, max).published <= max,
        run_of(items, max).settled() == run_of(items, max).refs.len(),
    decreases items.len(),
{
    if items.len() > 0 {
        queue_is_bounded(items.drop_last(), max);
    }
}

/// A run over bindings whose refs are all there already creates nothing: it
/// finds every one of them present.
pub proof fn a_second_run_creates_nothing(items: Seq<(Seq<char>, QueueItemOutcome)>, max: nat)
    requires
        max > 0,
        forall|i: int|
            0 <= i < items.len() ==> (#[trigger] items[i]).1 == QueueItemOutcome::AlreadyPresent,
    ensures
        run_of(items, max) == (QueueView {
            published: 0,
            already_present: items.len(),
            unresolvable: 0,
            refs: items.map_values(|i: (Seq<char>, QueueItemOutcome)| i.0),
        }),
    decreases items.len(),
{
    let names = items.map_values(|i: (Seq<char>, QueueItemOutcome)| i.0);
    if items.len() > 0 {
        let head = items.drop_last();
        assert forall|i: int| 0 <= i < head.len() implies (#[trigger] head[i]).1
            == QueueItemOutcome::AlreadyPresent by {
            assert(head[i] == items[i]);
        }
        a_second_run_creates_nothing(head, max);
        assert(items[items.len() - 1].1 == QueueItemOutcome::AlreadyPresent);
        assert(head.map_values(|i: (Seq<char>, QueueItemOutcome)| i.0).push(items.last().0)
            =~= names);
    } else {
        assert(names =~= seq![]);
    }
}

/// The order in which the queue takes the binding ids up.
pub open spec fn id_order(ids: Seq<Seq<char>>) -> bool {
    forall|i: int, j: int|
        0 <= i < j < ids.len() ==> !paths::text_less(#[trigger] ids[j], #[trigger] ids[i])
}

/// The binding ids in the order in which the queue takes them up: by their
/// hexadecimal text.
pub fn queue_order(ids: Vec<String>) -> (r: Vec<String>)
    ensures
        id_order(text::texts(r@)),
        text::texts(r@).to_multiset() == text::texts(ids@).to_multiset(),
{
    let mut out: Vec<String> = Vec::new();
    let mut i: usize = 0;
    assert(text::texts(ids@).take(0) =~= Seq::<Seq<char>>::empty());
    assert(text::texts(out@) =~= Seq::<Seq<char>>::empty());
    while i < ids.len()
        invariant
            i <= ids@.len(),
            id_order(text::texts(out@)),
            text::texts(out@).to_multiset() == text::texts(ids@).take(i as int).to_multiset(),
        decreases ids@.len() - i,
    {
        let ghost before = text::texts(out@);
        let ghost ghost_id = ids@[i as int]@;
        let mut k: usize = out.len();
        while k > 0 && less_text(&ids[i as usize], &out[k - 1])
            invariant
                k <= out@.len(),
                i < ids@.len(),
                before == text::texts(out@),
                id_order(before),
                ghost_id == ids@[i as int]@,
                forall|j: int| k <= j < before.len() ==> paths::text_less(ghost_id, #[trigger] before[j]),
            decreases k,
        {
            assert(before[k - 1] == out@[k - 1]@);
            k -= 1;
        }
        proof {
            if k > 0 {
                assert(before[k - 1] == out@[k - 1]@);
            }
        }
        out.insert(k, ids[i].clone());
        let ghost after = text::texts(out@);
        assert(after =~= before.insert(k as int, ghost_id));
        assert forall|a: int, b: int| 0 <= a < b < after.len() implies !paths::text_less(
            #[trigger] after[b],
            #[trigger] after[a],
        ) by {
            if a < k && b < k {
                assert(!paths::text_less(before[b], before[a]));
            } else if a < k && b == k {
                if a < k - 1 {
                    assert(!paths::text_less(before[k - 1], before[a]));
                    if paths::text_less(ghost_id, before[a]) {
                        paths::lemma_text_less_total(before[k - 1], before[a]);
                        if before[k - 1] != before[a] {
                            paths::lemma_text_less_trans(ghost_id, before[a], before[k - 1]);
                        }
                    }
                }
            } else if a < k && b > k {
                assert(!paths::text_less(before[b - 1], before[a]));
            } else if a == k {
                assert(paths::text_less(ghost_id, before[b - 1]));
                paths::lemma_text_less_total(ghost_id, before[b - 1]);
            } else {
                assert(!paths::text_less(before[b - 1], before[a - 1]));
            }
        }
        assert(text::texts(ids@).take(i as int + 1) =~= text::texts(ids@).take(i as int).push(
            ghost_id,
        ));
        proof {
            vstd::seq_lib::to_multiset_insert(before, k as int, ghost_id);
            text::texts(ids@).take(i as int).to_multiset_ensures();
        }
        i += 1;
    }
    assert(text::texts(ids@).take(ids@.len() as int) =~= text::texts(ids@));
    out
}

/// The refusal of a ref outside the canonical layout.
pub open spec fn unregistered_ref_message(name: Seq<char>) -> Seq<char> {
    "binding ref '"@ + name
        + "' does not carry its binding id in the canonical refs/atomic/bindings/<shard>/<id> layout; unregistered refs never transfer"@
}

/// The refusal of a ref that is not the canonical one of its binding.
pub open spec fn reshaped_ref_message(
    name: Seq<char>,
    id: Seq<char>,
    canonical: Seq<char>,
) -> Seq<char> {
    "binding ref '"@ + name + "' is not the canonical ref for binding "@ + id + " ('"@ + canonical
        + "'); re-shaped binding refs never transfer"@
}

/// The refusal of a ref without a stored binding.
pub open spec fn unbacked_ref_message(name: Seq<char>) -> Seq<char> {
    "binding ref '"@ + name
        + "' is not backed by a stored binding; unregistered binding refs never transfer because their reachable object surface was never validated"@
}

/// Whether the ref `name` may transfer: `id` is the binding id that its name
/// carries, `canonical` the canonical ref of that id.
pub fn admit_transfer_ref(
    name: &str,
    id: Option<&str>,
    canonical: &str,
    stored_ids: &Vec<String>,
) -> (r: Result<(), CliError>)
    ensures
        match id {
            None => r matches Err(e) && e.is_git_error(unregistered_ref_message(name@)),
            Some(id) => if name@ != canonical@ {
                r matches Err(e) && e.is_git_error(
                    reshaped_ref_message(name@, id@, canonical@),
                )
            } else if !text::texts(stored_ids@).contains(id@) {
                r matches Err(e) && e.is_git_error(unbacked_ref_message(name@))
            } else {
                r is Ok
            },
        },
{
    match id {
        None => {
            let mut m: String = "binding ref '".to_owned();
            m.append(name);
            m.append(
                "' does not carry its binding id in the canonical refs/atomic/bindings/<shard>/<id> layout; unregistered refs never transfer",
            );
            Err(git_error(m))
        },
        Some(id) => {
            if !same_text(name, canonical) {
                let mut m: String = "binding ref '".to_owned();
                m.append(name);
                m.append("' is not the canonical ref for binding ");
                m.append(id);
                m.append(" ('");
                m.append(canonical);
                m.append("'); re-shaped binding refs never transfer");
                return Err(git_error(m));
            }
            if !contains_text(stored_ids, id) {
                let mut m: String = "binding ref '".to_owned();
                m.append(name);
                m.append(
                    "' is not backed by a stored binding; unregistered binding refs never transfer because their reachable object surface was never validated",
                );
                return Err(git_error(m));
            }
            Ok(())
        },
    }
}

/// A binding ref to transfer, with the verified object that travels.
#[derive(Debug)]
pub struct TransferRef {
    pub name: String,
    pub oid: String,
}

/// A `TransferRef` as a value.
pub struct TransferRefView {
    pub name: Seq<char>,
    pub oid: Seq<char>,
}

impl View for TransferRef {
    type V = TransferRefView;

    open spec fn view(&self) -> TransferRefView {
        TransferRefView { name: self.name@, oid: self.oid@ }
    }
}

/// The views of a list of transfers.
pub open spec fn transfer_views(v: Seq<TransferRef>) -> Seq<TransferRefView> {
    v.map_values(|t: TransferRef| t@)
}

/// What was found of an admitted ref: whether its stored binding still
/// loads, and its verified carrier.
pub struct CarrierEvidence {
    /// Whether the carrier holds exactly the stored bytes.
    pub same_bytes: bool,
    /// The object id of the carrier.
    pub oid: String,
}

/// The refusal when a stored binding is gone.
pub open spec fn vanished_binding_message(id: Seq<char>) -> Seq<char> {
    "stored binding "@ + id + " disappeared between enumeration and transfer"@
}

/// The refusal when a ref is gone.
pub open spec fn vanished_ref_message(name: Seq<char>) -> Seq<char> {
    "binding ref '"@ + name + "' vanished during carrier validation"@
}

/// The refusal of foreign bytes.
pub open spec fn foreign_bytes_message(name: Seq<char>, id: Seq<char>) -> Seq<char> {
    "binding ref '"@ + name + "' publishes binding "@ + id
        + " with bytes differing from the stored binding; the published bytes never transfer"@
}

/// The transfer of an admitted ref, sourced at its verified carrier.
pub fn transfer_ref(
    name: &str,
    id: &str,
    stored: bool,
    carrier: Option<&CarrierEvidence>,
) -> (r: Result<TransferRef, CliError>)
    ensures
        if !stored {
            r matches Err(e) && e.is_git_error(vanished_binding_message(id@))
        } else {
            match carrier {
                None => r matches Err(e) && e.is_git_error(vanished_ref_message(name@)),
                Some(c) => if !c.same_bytes {
                    r matches Err(e) && e.is_git_error(foreign_bytes_message(name@, id@))
                } else {
                    r matches Ok(t) && t@ == (TransferRefView { name: name@, oid: c.oid@ })
                },
            }
        },
{
    if !stored {
        let mut m: String = "stored binding ".to_owned();
        m.append(id);
        m.append(" disappeared between enumeration and transfer");
        return Err(git_error(m));
    }
    match carrier {
        None => {
            let mut m: String = "binding ref '".to_owned();
            m.append(name);
            m.append("' vanished during carrier validation");
            Err(git_error(m))
        },
        Some(c) => {
            if !c.same_bytes {
                let mut m: String = "binding ref '".to_owned();
                m.append(name);
                m.append("' publishes binding ");
                m.append(id);
                m.append(
                    " with bytes differing from the stored binding; the published bytes never transfer",
                );
                return Err(git_error(m));
            }
            Ok(TransferRef { name: name.to_owned(), oid: c.oid.clone() })
        },
    }
}

/// The create-only lease of a ref: the remote must not hold it yet.
pub open spec fn create_only_lease(name: Seq<char>) -> Seq<char> {
    "--force-with-lease="@ + name + ":"@
}

/// The arguments that push one ref under a create-only lease.
pub open spec fn create_only_arguments(t: TransferRefView) -> Seq<Seq<char>> {
    seq![create_only_lease(t.name), t.oid + ":"@ + t.name]
}

/// The arguments of the push that transfers `refs` to `remote`.
pub open spec fn transfer_arguments(remote: Seq<char>, refs: Seq<TransferRefView>) -> Seq<
    Seq<char>,
>
    decreases refs.len(),
{
    if refs.len() == 0 {
        seq!["push"@, remote]
    } else {
        transfer_arguments(remote, refs.drop_last()) + create_only_arguments(refs.last())
    }
}

/// The create-only lease of a ref.
fn create_only_lease_text(name: &str) -> (r: String)
    ensures
        r@ == create_only_lease(name@),
{
    let mut m: String = "--force-with-lease=".to_owned();
    m.append(name);
    m.append(":");
    m
}

/// The arguments of the `git` command that transfers `refs` to `remote`:
/// each ref sourced at its verified object, under a create-only lease.
pub fn transfer_push_arguments(remote: &str, refs: &Vec<TransferRef>) -> (r: Vec<String>)
    ensures
        text::texts(r@) == transfer_arguments(remote@, transfer_views(refs@)),
{
    let mut out: Vec<String> = Vec::new();
    out.push("push".to_owned());
    out.push(remote.to_owned());
    assert(text::texts(out@) =~= seq!["push"@, remote@]);
    let mut i: usize = 0;
    while i < refs.len()
        invariant
            i <= refs@.len(),
            text::texts(out@) == transfer_arguments(
                remote@,
                transfer_views(refs@).take(i as int),
            ),
        decreases refs@.len() - i,
    {
        let ghost before = text::texts(out@);
        out.push(create_only_lease_text(&refs[i].name));
        let mut m: String = refs[i].oid.clone();
        m.append(":");
        m.append(&refs[i].name);
        out.push(m);
        let ghost t = transfer_views(refs@);
        assert(t.take(i as int + 1).drop_last() =~= t.take(i as int));
        assert(t.take(i as int + 1).last() == refs@[i as int]@);
        assert(text::texts(out@) =~= before + create_only_arguments(refs@[i as int]@));
        i += 1;
    }
    assert(transfer_views(refs@).take(refs@.len() as int) =~= transfer_views(refs@));
    out
}

/// What follows a transfer push.
#[derive(Clone, Copy, Debug, PartialEq, Eq, Structural)]
pub enum TransferAction {
    /// Verify every ref at the remote before anything is reported.
    VerifyRemote,
    /// Mirror the refs into the degraded branch namespace.
    Degrade,
    /// Report the refusal.
    Refuse,
}

/// What follows a transfer push that succeeded or not: a failure degrades
/// only on the operator's explicit request.
pub fn after_transfer_push(success: bool, degraded_fallback: bool) -> (r: TransferAction)
    ensures
        r == (if success {
            TransferAction::VerifyRemote
        } else if degraded_fallback {
            TransferAction::Degrade
        } else {
            TransferAction::Refuse
        }),
{
    if success {
        TransferAction::VerifyRemote
    } else if degraded_fallback {
        TransferAction::Degrade
    } else {
        TransferAction::Refuse
    }
}

/// The degraded branch ref of a binding ref.
pub open spec fn degraded_name(name: Seq<char>) -> Seq<char> {
    DEGRADED_HEAD_BINDING_PREFIX@ + (if text::has_prefix(name, BINDING_NAMESPACE@) {
        name.skip(BINDING_NAMESPACE@.len() as int)
    } else {
        name
    })
}

/// The degraded branch ref of a binding ref.
pub fn degraded_ref(name: &str) -> (r: String)
    ensures
        r@ == degraded_name(name@),
{
    let mut m: String = DEGRADED_HEAD_BINDING_PREFIX.to_owned();
    match strip_prefix(name, BINDING_NAMESPACE) {
        Some(rest) => m.append(&rest),
        None => m.append(name),
    }
    m
}

/// The arguments of the `git` command that mirrors one binding ref into the
/// degraded namespace.
pub fn degraded_push_arguments(remote: &str, transfer: &TransferRef) -> (r: Vec<String>)
    ensures
        text::texts(r@) == transfer_arguments(
            remote@,
            seq![TransferRefView { name: degraded_name(transfer.name@), oid: transfer.oid@ }],
        ),
{
    let mut refs: Vec<TransferRef> = Vec::new();
    refs.push(TransferRef { name: degraded_ref(&transfer.name), oid: transfer.oid.clone() });
    assert(transfer_views(refs@) =~= seq![
        TransferRefView { name: degraded_name(transfer.name@), oid: transfer.oid@ },
    ]);
    transfer_push_arguments(remote, &refs)
}

/// One `ls-remote` line as the pair of its object id and its ref name.
pub open spec fn remote_line(line: Seq<char>) -> Option<(Seq<char>, Seq<char>)> {
    let w = text::words_of(line);
    if w.len() >= 2 {
        Some((w[0], w[1]))
    } else {
        None
    }
}

/// What the last of `ls` that names `name` says the remote holds.
pub open spec fn observed_at(ls: Seq<Seq<char>>, name: Seq<char>) -> Option<Seq<char>>
    decreases ls.len(),
{
    if ls.len() == 0 {
        None
    } else {
        match remote_line(ls.last()) {
            Some((oid, n)) => if n == name {
                Some(oid)
            } else {
                observed_at(ls.drop_last(), name)
            },
            None => observed_at(ls.drop_last(), name),
        }
    }
}

/// What the first of `ls` that names `name` says the remote holds.
pub open spec fn first_observed(ls: Seq<Seq<char>>, name: Seq<char>) -> Option<Seq<char>>
    decreases ls.len(),
{
    if ls.len() == 0 {
        None
    } else {
        match remote_line(ls[0]) {
            Some((oid, n)) => if n == name {
                Some(oid)
            } else {
                first_observed(ls.drop_first(), name)
            },
            None => first_observed(ls.drop_first(), name),
        }
    }
}

/// The last object id that the lines `ls` name for `name`.
fn last_observation(ls: &Vec<String>, name: &str) -> (r: Option<String>)
    ensures
        text::opt_text(r) == observed_at(text::texts(ls@), name@),
{
    let mut i: usize = ls.len();
    assert(text::texts(ls@).take(i as int) =~= text::texts(ls@));
    while i > 0
        invariant
            i <= ls@.len(),
            observed_at(text::texts(ls@).take(i as int), name@) == observed_at(
                text::texts(ls@),
                name@,
            ),
        decreases i,
    {
        let ghost t = text::texts(ls@).take(i as int);
        assert(t.drop_last() =~= text::texts(ls@).take(i as int - 1));
        assert(t.last() == ls@[i - 1]@);
        let w = words(&ls[i - 1]);
        assert(text::texts(w@).len() == w@.len());
        if w.len() >= 2 {
            assert(text::texts(w@)[1] == w@[1]@ && text::texts(w@)[0] == w@[0]@);
            if same_text(&w[1], name) {
                return Some(w[0].clone());
            }
        }
        i -= 1;
    }
    None
}

/// The tip of `remote_ref` in the output of `ls-remote`: `None` means that
/// the remote does not advertise the ref.
pub fn observe_remote_ref(output: &str, remote_ref: &str) -> (r: Option<String>)
    ensures
        text::opt_text(r) == first_observed(text::lines_of(output@), remote_ref@),
{
    let ls = lines(output);
    let mut i: usize = 0;
    assert(text::texts(ls@).skip(0) =~= text::texts(ls@));
    while i < ls.len()
        invariant
            i <= ls@.len(),
            first_observed(text::texts(ls@).skip(i as int), remote_ref@) == first_observed(
                text::lines_of(output@),
                remote_ref@,
            ),
        decreases ls@.len() - i,
    {
        let ghost t = text::texts(ls@).skip(i as int);
        assert(t.drop_first() =~= text::texts(ls@).skip(i as int + 1));
        assert(t[0] == ls@[i as int]@);
        let w = words(&ls[i]);
        assert(text::texts(w@).len() == w@.len());
        if w.len() >= 2 {
            assert(text::texts(w@)[1] == w@[1]@ && text::texts(w@)[0] == w@[0]@);
            if same_text(&w[1], remote_ref) {
                return Some(w[0].clone());
            }
        }
        i += 1;
    }
    None
}

/// The gap that one expected ref leaves, given what the remote holds.
pub open spec fn ref_gap(t: TransferRefView, held: Option<Seq<char>>) -> Option<Seq<char>> {
    match held {
        Some(actual) => if actual == t.oid {
            None
        } else {
            Some(
                "ref '"@ + t.name + "' holds "@ + actual + " but the local binding commit is "@
                    + t.oid,
            )
        },
        None => Some("ref '"@ + t.name + "' is absent from the remote after transfer"@),
    }
}

/// The gaps of all expected refs, in order.
pub open spec fn ref_gaps(expected: Seq<TransferRefView>, ls: Seq<Seq<char>>) -> Seq<Seq<char>>
    decreases expected.len(),
{
    if expected.len() == 0 {
        seq![]
    } else {
        let before = ref_gaps(expected.drop_last(), ls);
        match ref_gap(expected.last(), observed_at(ls, expected.last().name)) {
            Some(gap) => before.push(gap),
            None => before,
        }
    }
}

/// Check the output of `ls-remote` against the refs that were transferred:
/// the verified refs with their targets when the remote holds every one at
/// its exact target, else a refusal that names each gap.
pub fn verify_remote_binding_refs(output: &str, expected: &Vec<TransferRef>) -> (r: Result<
    Vec<TransferRef>,
    CliError,
>)
    ensures
        ({
            let gaps = ref_gaps(transfer_views(expected@), text::lines_of(output@));
            if gaps.len() == 0 {
                r matches Ok(verified) && transfer_views(verified@) == transfer_views(expected@)
            } else {
                r matches Err(e) && e.is_git_error(
                    "binding transfer verification FAILED — publication not reported: "@
                        + text::joined(gaps, "; "@),
                )
            }
        }),
{
    let ls = lines(output);
    let mut verified: Vec<TransferRef> = Vec::new();
    let mut gaps: Vec<String> = Vec::new();
    let mut i: usize = 0;
    let ghost all = transfer_views(expected@);
    assert(text::texts(gaps@) =~= ref_gaps(all.take(0), text::texts(ls@)));
    assert(transfer_views(verified@) =~= all.take(0));
    while i < expected.len()
        invariant
            i <= expected@.len(),
            all == transfer_views(expected@),
            text::texts(gaps@) == ref_gaps(all.take(i as int), text::texts(ls@)),
            gaps@.len() == 0 ==> transfer_views(verified@) == all.take(i as int),
        decreases expected@.len() - i,
    {
        let ghost t = expected@[i as int]@;
        let ghost gaps_before = text::texts(gaps@);
        let ghost verified_before = transfer_views(verified@);
        assert(all.take(i as int + 1).drop_last() =~= all.take(i as int));
        assert(all.take(i as int + 1).last() == t);
        let name: &String = &expected[i].name;
        match last_observation(&ls, name) {
            Some(actual) => {
                if actual == expected[i].oid {
                    verified.push(TransferRef { name: name.clone(), oid: actual });
                    assert(transfer_views(verified@) =~= verified_before.push(t));
                } else {
                    let mut m: String = "ref '".to_owned();
                    m.append(name);
                    m.append("' holds ");
                    m.append(&actual);
                    m.append(" but the local binding commit is ");
                    m.append(&expected[i].oid);
                    let ghost gap = m@;
                    gaps.push(m);
                    assert(text::texts(gaps@) =~= gaps_before.push(gap));
                }
            },
            None => {
                let mut m: String = "ref '".to_owned();
                m.append(name);
                m.append("' is absent from the remote after transfer");
                let ghost gap = m@;
                gaps.push(m);
                assert(text::texts(gaps@) =~= gaps_before.push(gap));
            },
        }
        assert(text::texts(gaps@).len() == gaps@.len());
        assert(gaps@.len() == 0 ==> transfer_views(verified@) =~= all.take(i as int + 1));
        i += 1;
    }
    assert(all.take(expected@.len() as int) =~= all);
    assert(text::texts(gaps@).len() == gaps@.len());
    if gaps.len() > 0 {
        let mut m: String = "binding transfer verification FAILED — publication not reported: ".to_owned();
        m.append(&join(&gaps, "; "));
        return Err(git_error(m));
    }
    Ok(verified)
}

/// Publication is reported only when the remote holds every expected ref at
/// its exact target.
pub proof fn verification_has_no_gap(expected: Seq<TransferRefView>, ls: Seq<Seq<char>>, i: int)
    requires
        ref_gaps(expected, ls).len() == 0,
        0 <= i < expected.len(),
    ensures
        observed_at(ls, expected[i].name) == Some(expected[i].oid),
    decreases expected.len(),
{
    if i < expected.len() - 1 {
        assert(expected.drop_last()[i] == expected[i]);
        verification_has_no_gap(expected.drop_last(), ls, i);
    }
}

/// The lease of one mapped remote update, if the remote was observed.
pub open spec fn lease_of(last_observed: Option<Seq<char>>, remote_ref: Seq<char>) -> Option<
    Seq<char>,
> {
    match last_observed {
        Some(o) => if text::trimmed(o).len() == 0 {
            None
        } else {
            Some("--force-with-lease="@ + remote_ref + ":"@ + text::trimmed(o))
        },
        None => None,
    }
}

/// The `--force-with-lease=<ref>:<expected>` argument for one mapped remote
/// update, pinned to the last observed tip; no lease without an observation.
pub fn remote_lease_refspec(last_observed_remote: Option<&str>, remote_ref: &str) -> (r: Option<
    String,
>)
    ensures
        text::opt_text(r) == lease_of(text::opt_str(last_observed_remote), remote_ref@),
{
    match last_observed_remote {
        None => None,
        Some(o) => {
            let expected = trim(o);
            if expected.as_str().is_empty() {
                return None;
            }
            let mut m: String = "--force-with-lease=".to_owned();
            m.append(remote_ref);
            m.append(":");
            m.append(&expected);
            Some(m)
        },
    }
}

/// Whether a fetch of `wanted` changes that served `served` records failed:
/// something was wanted and nothing came.
pub fn served_nothing(wanted: usize, served: usize) -> (r: bool)
    ensures
        r == (served == 0 && wanted != 0),
{
    served == 0 && wanted != 0
}

/// A listed ref is observed: a line with an object id and a ref, a tab
/// between them, says that the remote holds that id there, unless a later
/// line names the ref again.
pub proof fn a_listed_ref_is_observed(
    ls: Seq<Seq<char>>,
    k: int,
    oid: Seq<char>,
    name: Seq<char>,
)
    requires
        0 <= k < ls.len(),
        oid.len() > 0,
        name.len() > 0,
        forall|i: int| 0 <= i < oid.len() ==> !text::whitespace(#[trigger] oid[i]),
        forall|i: int| 0 <= i < name.len() ==> !text::whitespace(#[trigger] name[i]),
        ls[k] == oid + seq!['\t'] + name,
        forall|j: int|
            k < j < ls.len() ==> (remote_line(#[trigger] ls[j]) matches Some(p) ==> p.1 != name),
    ensures
        observed_at(ls, name) == Some(oid),
    decreases ls.len(),
{
    if k == ls.len() - 1 {
        lemma_two_words(oid, name);
    } else {
        let h = ls.drop_last();
        assert(remote_line(ls[ls.len() - 1]) matches Some(p) ==> p.1 != name);
        assert forall|j: int| k < j < h.len() implies (remote_line(#[trigger] h[j]) matches Some(p)
            ==> p.1 != name) by {
            assert(h[j] == ls[j]);
        }
        a_listed_ref_is_observed(h, k, oid, name);
    }
}

proof fn lemma_word_run(w: Seq<char>, rest: Seq<char>, white: bool)
    requires
        forall|i: int| 0 <= i < w.len() ==> text::whitespace(#[trigger] w[i]) == white,
        rest.len() == 0 || text::whitespace(rest[0]) != white,
    ensures
        text::run_len(w + rest, white) == w.len(),
    decreases w.len(),
{
    let s = w + rest;
    if w.len() == 0 {
        assert(s =~= rest);
    } else {
        let v = w.drop_first();
        assert forall|i: int| 0 <= i < v.len() implies text::whitespace(#[trigger] v[i])
            == white by {
            assert(v[i] == w[i + 1]);
        }
        lemma_word_run(v, rest, white);
        assert(s.drop_first() =~= v + rest);
        assert(s[0] == w[0]);
    }
}

proof fn lemma_two_words(a: Seq<char>, b: Seq<char>)
    requires
        a.len() > 0,
        b.len() > 0,
        forall|i: int| 0 <= i < a.len() ==> !text::whitespace(#[trigger] a[i]),
        forall|i: int| 0 <= i < b.len() ==> !text::whitespace(#[trigger] b[i]),
    ensures
        text::words_of(a + seq!['\t'] + b) == seq![a, b],
{
    let s = a + seq!['\t'] + b;
    let tail = seq!['\t'] + b;
    let none = Seq::<char>::empty();
    assert(s =~= a + tail);
    assert(!text::whitespace(a[0]));
    lemma_word_run(none, s, true);
    assert(none + s =~= s);
    assert(s.skip(0) =~= s);
    lemma_word_run(a, tail, false);
    assert(s.take(a.len() as int) =~= a);
    assert(s.skip(a.len() as int) =~= tail);
    assert(!text::whitespace(b[0]));
    lemma_word_run(seq!['\t'], b, true);
    assert(tail.skip(1) =~= b);
    lemma_word_run(b, none, false);
    assert(b + none =~= b);
    assert(b.take(b.len() as int) =~= b);
    assert(b.skip(b.len() as int) =~= none);
    lemma_word_run(none, none, true);
    assert(none + none =~= none);
    assert(none.skip(0) =~= none);
    assert(text::words_of(none) =~= seq![]);
    assert(text::words_of(b) =~= seq![b]) by {
        lemma_word_run(none, b, true);
        assert(none + b =~= b);
        assert(b.skip(0) =~= b);
    }
    assert(text::words_of(tail) =~= seq![b]);
    assert(text::words_of(s) =~= seq![a, b]);
}

/// Every ref goes over create-only: the push names each ref once, in turn,
/// with the object it is to hold, under a lease that the remote has no such
/// ref yet, and nothing else.
pub proof fn every_ref_goes_create_only(remote: Seq<char>, refs: Seq<TransferRefView>)
    ensures
        ({
            let args = transfer_arguments(remote, refs);
            &&& args.len() == 2 + 2 * refs.len()
            &&& args[0] == "push"@
            &&& args[1] == remote
            &&& forall|k: int|
                0 <= k < refs.len() ==> {
                    &&& args[2 + 2 * k] == "--force-with-lease="@ + (#[trigger] refs[k]).name
                        + ":"@
                    &&& args[3 + 2 * k] == refs[k].oid + ":"@ + refs[k].name
                }
        }),
    decreases refs.len(),
{
    if refs.len() > 0 {
        let h = refs.drop_last();
        every_ref_goes_create_only(remote, h);
        let before = transfer_arguments(remote, h);
        let args = transfer_arguments(remote, refs);
        assert forall|k: int| 0 <= k < refs.len() implies {
            &&& args[2 + 2 * k] == "--force-with-lease="@ + (#[trigger] refs[k]).name + ":"@
            &&& args[3 + 2 * k] == refs[k].oid + ":"@ + refs[k].name
        } by {
            if k < h.len() {
                assert(h[k] == refs[k]);
                assert(args[2 + 2 * k] == before[2 + 2 * k]);
                assert(args[3 + 2 * k] == before[3 + 2 * k]);
            }
        }
    }
}

/// Degraded refs do not clash: different binding refs get different branches,
/// all of them under the degraded prefix.
pub proof fn degraded_refs_stay_apart(a: Seq<char>, b: Seq<char>)
    requires
        text::has_prefix(a, BINDING_NAMESPACE@),
        text::has_prefix(b, BINDING_NAMESPACE@),
    ensures
        degraded_name(a) == degraded_name(b) ==> a == b,
        text::has_prefix(degraded_name(a), DEGRADED_HEAD_BINDING_PREFIX@),
{
    let n = BINDING_NAMESPACE@.len() as int;
    let m = DEGRADED_HEAD_BINDING_PREFIX@.len() as int;
    let da = degraded_name(a);
    let db = degraded_name(b);
    assert(da.take(m) =~= DEGRADED_HEAD_BINDING_PREFIX@);
    if da == db {
        assert(da.skip(m) =~= a.skip(n));
        assert(db.skip(m) =~= b.skip(n));
        assert(a =~= a.take(n) + a.skip(n));
        assert(b =~= b.take(n) + b.skip(n));
    }
}

} // verus!
