//! Evidence that a commit rewrites earlier ones. It is collected for review
//! and never establishes identity.
use crate::commit::ParsedCommit;
use crate::error::CliError;
use crate::json;
use crate::json::{read_json, JsonValue};
use crate::oid;
use crate::oid::{git_algorithm_for_sha, git_object_id_for_sha, is_full_oid, tagged_oid_hex};
use crate::squash::MergeStrategy;
use crate::text;
use crate::text::{reversed, same_text, to_lower};
use vstd::prelude::*;

verus! {

/// A pair of ids that a rewrite names.
#[derive(Debug)]
pub struct RewrittenPair {
    pub old_oid: Option<String>,
    pub new_oid: Option<String>,
}

/// A `RewrittenPair` as a value.
#[verifier::ext_equal]
pub struct PairView {
    pub old_oid: Option<Seq<char>>,
    pub new_oid: Option<Seq<char>>,
}

impl View for RewrittenPair {
    type V = PairView;

    open spec fn view(&self) -> PairView {
        PairView { old_oid: text::opt_text(self.old_oid), new_oid: text::opt_text(self.new_oid) }
    }
}

/// What the logic reads of a journal record. A field is absent where the
/// record has none of that name and type.
#[derive(Debug)]
pub struct JournalRecord {
    pub record_type: Option<String>,
    pub advisory: Option<bool>,
    pub interpretation: Option<String>,
    pub event_id: Option<String>,
    pub rewritten: Option<Vec<RewrittenPair>>,
}

/// A `JournalRecord` as a value.
#[verifier::ext_equal]
pub struct RecordView {
    pub record_type: Option<Seq<char>>,
    pub advisory: Option<bool>,
    pub interpretation: Option<Seq<char>>,
    pub event_id: Option<Seq<char>>,
    pub rewritten: Option<Seq<PairView>>,
}

/// The views of a list of pairs.
pub open spec fn pair_views(v: Seq<RewrittenPair>) -> Seq<PairView> {
    v.map_values(|p: RewrittenPair| p@)
}

impl View for JournalRecord {
    type V = RecordView;

    open spec fn view(&self) -> RecordView {
        RecordView {
            record_type: text::opt_text(self.record_type),
            advisory: self.advisory,
            interpretation: text::opt_text(self.interpretation),
            event_id: text::opt_text(self.event_id),
            rewritten: match self.rewritten {
                Some(v) => Some(pair_views(v@)),
                None => None,
            },
        }
    }
}

/// The view of a record, where there is one.
pub open spec fn opt_record(o: Option<JournalRecord>) -> Option<RecordView> {
    match o {
        Some(r) => Some(r@),
        None => None,
    }
}

/// What a journal record says, by the members of a JSON value: `record_type`,
/// `interpretation` and `event_id` are texts, `advisory` is a truth value, and
/// `rewritten` lists pairs with the texts `old_oid` and `new_oid`.
pub open spec fn record_of(v: json::JsonView) -> RecordView {
    RecordView {
        record_type: json::member_text(v, "record_type"@),
        advisory: json::member_truth(v, "advisory"@),
        interpretation: json::member_text(v, "interpretation"@),
        event_id: json::member_text(v, "event_id"@),
        rewritten: match json::member_items(v, "rewritten"@) {
            Some(items) => Some(items.map_values(|p: json::JsonView| pair_of(p))),
            None => None,
        },
    }
}

/// The pair that an item names.
pub open spec fn pair_of(v: json::JsonView) -> PairView {
    PairView {
        old_oid: json::member_text(v, "old_oid"@),
        new_oid: json::member_text(v, "new_oid"@),
    }
}

/// The record that a JSON text holds.
pub open spec fn journal_record(line: Seq<char>) -> Option<RecordView> {
    match json::json_text(line) {
        Some(v) => Some(record_of(v)),
        None => None,
    }
}

/// Take from a JSON value what a journal record says.
pub fn journal_record_of(v: &JsonValue) -> (r: JournalRecord)
    ensures
        r@ == record_of(json::json_view(*v)),
{
    let ghost want = record_of(json::json_view(*v));
    let rewritten: Option<Vec<RewrittenPair>> = match v.items_at("rewritten") {
        None => None,
        Some(items) => {
            let ghost views = json::item_views(items@);
            let ghost pairs = views.map_values(|p: json::JsonView| pair_of(p));
            proof {
                json::lemma_item_views(items@);
            }
            let mut out: Vec<RewrittenPair> = Vec::new();
            let mut i: usize = 0;
            assert(pair_views(out@) =~= pairs.take(0));
            while i < items.len()
                invariant
                    i <= items@.len(),
                    views.len() == items@.len(),
                    forall|k: int|
                        0 <= k < items@.len() ==> #[trigger] views[k] == json::json_view(items@[k]),
                    pairs == views.map_values(|p: json::JsonView| pair_of(p)),
                    pair_views(out@) == pairs.take(i as int),
                decreases items@.len() - i,
            {
                let item: &JsonValue = &items[i];
                let ghost before = pair_views(out@);
                assert(views[i as int] == json::json_view(*item));
                let pair = RewrittenPair {
                    old_oid: item.text_at("old_oid"),
                    new_oid: item.text_at("new_oid"),
                };
                let ghost pv = pair@;
                assert(pv =~= pairs[i as int]);
                out.push(pair);
                assert(pair_views(out@) =~= before.push(pv));
                assert(pair_views(out@) =~= pairs.take(i as int + 1));
                i += 1;
            }
            assert(pairs.take(i as int) =~= pairs);
            Some(out)
        },
    };
    let r = JournalRecord {
        record_type: v.text_at("record_type"),
        advisory: v.truth_at("advisory"),
        interpretation: v.text_at("interpretation"),
        event_id: v.text_at("event_id"),
        rewritten,
    };
    assert(r@ =~= want);
    r
}

/// What a journal line says of a commit.
#[derive(Debug)]
pub struct LineReading {
    /// The event's id; empty where there is none.
    pub event_id: String,
    /// The predecessors that the line names for the commit.
    pub matched: Vec<String>,
    /// How many parts of the line are malformed.
    pub untrusted: u64,
}

/// A `LineReading` as a value.
#[verifier::ext_equal]
pub struct ReadingView {
    pub event_id: Seq<char>,
    pub matched: Seq<Seq<char>>,
    pub untrusted: nat,
}

impl View for LineReading {
    type V = ReadingView;

    open spec fn view(&self) -> ReadingView {
        ReadingView {
            event_id: self.event_id@,
            matched: text::texts(self.matched@),
            untrusted: self.untrusted as nat,
        }
    }
}

/// A text, or none at all.
pub open spec fn text_or_empty(o: Option<Seq<char>>) -> Seq<char> {
    match o {
        Some(s) => s,
        None => seq![],
    }
}

/// Whether both ids of a pair are full.
pub open spec fn full_pair(p: PairView) -> bool {
    oid::full_oid(text_or_empty(p.new_oid)) && oid::full_oid(text_or_empty(p.old_oid))
}

/// The predecessors that the first `n` pairs name for a commit: the old ids,
/// in lower case, of the full pairs whose new id is the commit's.
pub open spec fn matched_oids(ps: Seq<PairView>, sha: Seq<char>, n: int) -> Seq<Seq<char>>
    decreases n,
{
    if n <= 0 {
        seq![]
    } else {
        let p = ps[n - 1];
        let head = matched_oids(ps, sha, n - 1);
        if full_pair(p) && text::lowered(text_or_empty(p.new_oid)) == text::lowered(sha) {
            head.push(text::lowered(text_or_empty(p.old_oid)))
        } else {
            head
        }
    }
}

/// How many of the first `n` pairs are not full.
pub open spec fn partial_pairs(ps: Seq<PairView>, n: int) -> nat
    decreases n,
{
    if n <= 0 {
        0
    } else {
        partial_pairs(ps, n - 1) + if full_pair(ps[n - 1]) {
            0nat
        } else {
            1nat
        }
    }
}

/// What a journal line says of a commit. A line that is no JSON text, and a
/// rewrite that is not marked as advisory, does not carry the interpretation
/// or lists nothing, is malformed; a record of another type says nothing.
pub open spec fn reading_of(
    record: Option<RecordView>,
    interpretation: Seq<char>,
    sha: Seq<char>,
) -> ReadingView {
    let nothing = ReadingView { event_id: seq![], matched: seq![], untrusted: 0 };
    let malformed = ReadingView { event_id: seq![], matched: seq![], untrusted: 1 };
    match record {
        None => malformed,
        Some(r) => if r.record_type != Some("post-rewrite"@) {
            nothing
        } else if r.advisory != Some(true) || r.interpretation != Some(interpretation) {
            malformed
        } else {
            match r.rewritten {
                None => malformed,
                Some(ps) => ReadingView {
                    event_id: text_or_empty(r.event_id),
                    matched: matched_oids(ps, sha, ps.len() as int),
                    untrusted: partial_pairs(ps, ps.len() as int),
                },
            }
        },
    }
}

fn text_of(o: &Option<String>) -> (r: String)
    ensures
        r@ == text_or_empty(text::opt_text(*o)),
{
    match o {
        Some(s) => s.as_str().to_owned(),
        None => String::new(),
    }
}

fn text_is(o: &Option<String>, s: &str) -> (r: bool)
    ensures
        r == (text::opt_text(*o) == Some(s@)),
{
    match o {
        Some(t) => same_text(t, s),
        None => false,
    }
}

fn bare_reading(untrusted: u64) -> (r: LineReading)
    ensures
        r@ == (ReadingView { event_id: seq![], matched: seq![], untrusted: untrusted as nat }),
{
    let r = LineReading { event_id: String::new(), matched: Vec::new(), untrusted };
    assert(r@ =~~= (ReadingView { event_id: seq![], matched: seq![], untrusted: untrusted as nat }));
    r
}

fn read_pairs(pairs: &Vec<RewrittenPair>, event_id: String, sha: &str) -> (r: LineReading)
    ensures
        r@ == (ReadingView {
            event_id: event_id@,
            matched: matched_oids(pair_views(pairs@), sha@, pairs@.len() as int),
            untrusted: partial_pairs(pair_views(pairs@), pairs@.len() as int),
        }),
{
    let ghost ps = pair_views(pairs@);
    let wanted = to_lower(sha);
    let mut matched: Vec<String> = Vec::new();
    let mut untrusted: u64 = 0;
    let mut i: usize = 0;
    assert(text::texts(matched@) =~= matched_oids(ps, sha@, 0));
    while i < pairs.len()
        invariant
            i <= pairs@.len(),
            ps == pair_views(pairs@),
            wanted@ == text::lowered(sha@),
            untrusted <= i,
            text::texts(matched@) == matched_oids(ps, sha@, i as int),
            untrusted == partial_pairs(ps, i as int),
        decreases pairs@.len() - i,
    {
        assert(ps[i as int] == pairs@[i as int]@);
        let new_oid = text_of(&pairs[i].new_oid);
        let old_oid = text_of(&pairs[i].old_oid);
        let ghost before = text::texts(matched@);
        if !is_full_oid(&new_oid) || !is_full_oid(&old_oid) {
            untrusted += 1;
        } else if same_text(&to_lower(&new_oid), &wanted) {
            let old = to_lower(&old_oid);
            let ghost ov = old@;
            matched.push(old);
            assert(text::texts(matched@) =~= before.push(ov));
        }
        i += 1;
    }
    LineReading { event_id, matched, untrusted }
}

/// Tell what a record says of a commit.
pub fn classify_record(record: &Option<JournalRecord>, interpretation: &str, sha: &str) -> (r:
    LineReading)
    ensures
        r@ == reading_of(opt_record(*record), interpretation@, sha@),
{
    let rec: &JournalRecord = match record {
        Some(rec) => rec,
        None => {
            return bare_reading(1);
        },
    };
    if !text_is(&rec.record_type, "post-rewrite") {
        return bare_reading(0);
    }
    let advisory: bool = match rec.advisory {
        Some(b) => b,
        None => false,
    };
    if !advisory || !text_is(&rec.interpretation, interpretation) {
        return bare_reading(1);
    }
    match &rec.rewritten {
        None => bare_reading(1),
        Some(pairs) => read_pairs(pairs, text_of(&rec.event_id), sha),
    }
}

/// Tell what a line of the journal says of a commit.
pub fn read_journal_line(line: &str, interpretation: &str, sha: &str) -> (r: LineReading)
    ensures
        r@ == reading_of(journal_record(line@), interpretation@, sha@),
{
    let record: Option<JournalRecord> = match read_json(line) {
        Some(v) => Some(journal_record_of(&v)),
        None => None,
    };
    classify_record(&record, interpretation, sha)
}

/// What is known of the capture of a journal line.
#[derive(Clone, Copy, Debug, PartialEq, Eq, Structural)]
pub struct CaptureFacts {
    /// An immutable record holds the exact line.
    pub captured: bool,
    /// The record is anchored to an operation.
    pub anchored: bool,
    /// The operation's effects are those that the line names.
    pub binds: bool,
    /// The operation has a verified receipt.
    pub verified: bool,
    /// Every named predecessor was interpreted locally.
    pub interpreted: bool,
}

/// Whether a line that names predecessors links an operation.
pub open spec fn authenticated(r: ReadingView, f: CaptureFacts) -> bool {
    r.event_id.len() > 0 && f.captured && f.anchored && f.binds && f.verified && f.interpreted
}

/// What the journal says of a commit.
#[derive(Debug)]
pub struct RewriteLinkage {
    pub predecessors: Vec<String>,
    pub event_ids: Vec<String>,
    pub untrusted: u64,
    pub unauthenticated: u64,
}

/// A `RewriteLinkage` as a value.
#[verifier::ext_equal]
pub struct LinkageView {
    pub predecessors: Seq<Seq<char>>,
    pub event_ids: Seq<Seq<char>>,
    pub untrusted: nat,
    pub unauthenticated: nat,
}

impl View for RewriteLinkage {
    type V = LinkageView;

    open spec fn view(&self) -> LinkageView {
        LinkageView {
            predecessors: text::texts(self.predecessors@),
            event_ids: text::texts(self.event_ids@),
            untrusted: self.untrusted as nat,
            unauthenticated: self.unauthenticated as nat,
        }
    }
}

/// What the journal says once a further line is taken in: a line that names
/// predecessors and is authenticated adds them, any other that names some is
/// counted.
pub open spec fn after_line(l: LinkageView, r: ReadingView, f: CaptureFacts) -> LinkageView {
    let counted = LinkageView { untrusted: l.untrusted + r.untrusted, ..l };
    if r.matched.len() == 0 {
        counted
    } else if authenticated(r, f) {
        LinkageView {
            predecessors: l.predecessors + r.matched,
            event_ids: l.event_ids.push(r.event_id),
            ..counted
        }
    } else {
        LinkageView { unauthenticated: l.unauthenticated + 1, ..counted }
    }
}

fn append_texts(out: &mut Vec<String>, more: Vec<String>)
    ensures
        text::texts(final(out)@) == text::texts(old(out)@) + text::texts(more@),
{
    let mut more = more;
    let ghost a = out@;
    let ghost b = more@;
    out.append(&mut more);
    assert(out@ == a + b);
    assert(text::texts(out@) =~= text::texts(a) + text::texts(b));
}

impl RewriteLinkage {
    /// Nothing is said yet.
    pub fn new() -> (r: RewriteLinkage)
        ensures
            r@ == (LinkageView {
                predecessors: seq![],
                event_ids: seq![],
                untrusted: 0,
                unauthenticated: 0,
            }),
    {
        let r = RewriteLinkage {
            predecessors: Vec::new(),
            event_ids: Vec::new(),
            untrusted: 0,
            unauthenticated: 0,
        };
        assert(text::texts(r.predecessors@) =~= seq![]);
        assert(text::texts(r.event_ids@) =~= seq![]);
        r
    }

    /// Take in what a further line says. The counts must not run over.
    pub fn absorb(&mut self, reading: LineReading, facts: CaptureFacts)
        requires
            old(self).untrusted + reading.untrusted <= u64::MAX,
            old(self).unauthenticated < u64::MAX,
        ensures
            final(self)@ == after_line(old(self)@, reading@, facts),
    {
        self.untrusted = self.untrusted + reading.untrusted;
        if reading.matched.len() == 0 {
            return;
        }
        let named: bool = !reading.event_id.as_str().is_empty();
        if named && facts.captured && facts.anchored && facts.binds && facts.verified
            && facts.interpreted {
            let ghost e = text::texts(self.event_ids@);
            let ghost id = reading.event_id@;
            append_texts(&mut self.predecessors, reading.matched);
            self.event_ids.push(reading.event_id);
            assert(text::texts(self.event_ids@) =~= e.push(id));
        } else {
            self.unauthenticated = self.unauthenticated + 1;
        }
    }
}

/// What the journal says once all of its lines are taken in.
pub open spec fn linkage_of(rs: Seq<(ReadingView, CaptureFacts)>) -> LinkageView
    decreases rs.len(),
{
    if rs.len() == 0 {
        LinkageView { predecessors: seq![], event_ids: seq![], untrusted: 0, unauthenticated: 0 }
    } else {
        after_line(linkage_of(rs.drop_last()), rs.last().0, rs.last().1)
    }
}

/// The readings of the journal's lines, each with what is known of its
/// capture.
pub open spec fn captured_readings(rs: Seq<LineReading>, cs: Seq<CaptureFacts>) -> Seq<
    (ReadingView, CaptureFacts),
> {
    Seq::new(rs.len(), |i: int| (rs[i]@, cs[i]))
}

/// Whether the journal says anything of a commit.
pub open spec fn speaks(l: LinkageView) -> bool {
    l.predecessors.len() > 0 || l.unauthenticated > 0 || l.untrusted > 0
}

proof fn lemma_counts(rs: Seq<(ReadingView, CaptureFacts)>, n: int)
    requires
        0 <= n <= rs.len(),
    ensures
        linkage_of(rs.take(n)).untrusted <= linkage_of(rs).untrusted,
        linkage_of(rs.take(n)).unauthenticated <= n,
    decreases rs.len(),
{
    if n == rs.len() {
        assert(rs.take(n) =~= rs);
        if n > 0 {
            assert(rs.drop_last() =~= rs.take(n - 1));
            lemma_counts(rs.drop_last(), n - 1);
            assert(rs.drop_last().take(n - 1) =~= rs.drop_last());
        }
    } else {
        lemma_counts(rs.drop_last(), n);
        assert(rs.drop_last().take(n) =~= rs.take(n));
    }
}

/// What the journal says of a commit, from the readings of its lines and what
/// is known of their capture; `None` where it says nothing. The malformed
/// parts must be countable.
pub fn captured_post_rewrite_linkage(
    readings: Vec<LineReading>,
    captures: &Vec<CaptureFacts>,
) -> (r: Option<RewriteLinkage>)
    requires
        readings@.len() == captures@.len(),
        linkage_of(captured_readings(readings@, captures@)).untrusted <= u64::MAX,
    ensures
        ({
            let l = linkage_of(captured_readings(readings@, captures@));
            match r {
                Some(x) => speaks(l) && x@ == l,
                None => !speaks(l),
            }
        }),
{
    let ghost all = captured_readings(readings@, captures@);
    let ghost given = readings@;
    let mut rest = reversed(readings);
    let mut linkage = RewriteLinkage::new();
    let mut i: usize = 0;
    assert(all.take(0) =~= seq![]);
    while i < captures.len()
        invariant
            i <= captures@.len(),
            given.len() == captures@.len(),
            all == captured_readings(given, captures@),
            rest@.len() == given.len() - i,
            forall|k: int| 0 <= k < rest@.len() ==> rest@[k] == given[given.len() - 1 - k],
            linkage@ == linkage_of(all.take(i as int)),
            linkage_of(all).untrusted <= u64::MAX,
        decreases captures@.len() - i,
    {
        proof {
            assert(all.take(i as int + 1).drop_last() =~= all.take(i as int));
            lemma_counts(all, i as int);
            lemma_counts(all, i as int + 1);
        }
        if let Some(reading) = rest.pop() {
            assert(reading == given[i as int]);
            assert(all.take(i as int + 1).last() == (reading@, captures@[i as int]));
            linkage.absorb(reading, captures[i]);
        }
        i += 1;
    }
    assert(all.take(i as int) =~= all);
    if linkage.predecessors.len() > 0 || linkage.unauthenticated > 0 || linkage.untrusted > 0 {
        Some(linkage)
    } else {
        None
    }
}

/// Whether a line of the journal names `old` for the commit, and is backed by
/// a captured operation.
pub open spec fn links(r: (ReadingView, CaptureFacts), old: Seq<char>) -> bool {
    r.0.matched.contains(old) && authenticated(r.0, r.1)
}

/// A predecessor is linked only by a line that names it and is backed by a
/// captured operation: text alone never links.
pub proof fn only_captured_events_link(rs: Seq<(ReadingView, CaptureFacts)>, old: Seq<char>)
    ensures
        linkage_of(rs).predecessors.contains(old) <==> exists|i: int|
            0 <= i < rs.len() && links(#[trigger] rs[i], old),
    decreases rs.len(),
{
    if rs.len() > 0 {
        let head = rs.drop_last();
        let last = rs.last();
        only_captured_events_link(head, old);
        let before = linkage_of(head).predecessors;
        let after = linkage_of(rs).predecessors;
        assert(forall|i: int| 0 <= i < head.len() ==> head[i] == rs[i]);
        if after.contains(old) {
            let j = choose|j: int| 0 <= j < after.len() && after[j] == old;
            if j < before.len() {
                assert(before[j] == old);
                let i = choose|i: int| 0 <= i < head.len() && links(#[trigger] head[i], old);
                assert(links(rs[i], old));
            } else {
                assert(last.0.matched[j - before.len()] == old);
                assert(links(rs[rs.len() - 1], old));
            }
        }
        if exists|i: int| 0 <= i < rs.len() && links(#[trigger] rs[i], old) {
            let i = choose|i: int| 0 <= i < rs.len() && links(#[trigger] rs[i], old);
            if i < head.len() {
                assert(links(head[i], old));
                let j = choose|j: int| 0 <= j < before.len() && before[j] == old;
                assert(after[j] == old);
            } else {
                let j = choose|j: int| 0 <= j < last.0.matched.len() && last.0.matched[j] == old;
                assert(after[before.len() + j] == old);
            }
        }
    }
}

/// How evidence of a rewrite was found.
#[derive(Clone, Copy, Debug, PartialEq, Eq, Structural)]
pub enum EvidenceClass {
    PostRewriteEvent,
    UnauthenticatedEvent,
    BindingTreeMatch,
    BindingRootRangeMatch,
    BindingRangeMatch,
}

/// The name of a class of evidence.
pub open spec fn class_name(c: EvidenceClass) -> Seq<char> {
    match c {
        EvidenceClass::PostRewriteEvent => "post-rewrite-event"@,
        EvidenceClass::UnauthenticatedEvent => "unauthenticated-event"@,
        EvidenceClass::BindingTreeMatch => "binding-tree-match"@,
        EvidenceClass::BindingRootRangeMatch => "binding-root-range-match"@,
        EvidenceClass::BindingRangeMatch => "binding-range-match"@,
    }
}

impl EvidenceClass {
    /// The name of a class of evidence.
    pub fn label(&self) -> (r: &'static str)
        ensures
            r@ == class_name(*self),
    {
        match self {
            EvidenceClass::PostRewriteEvent => "post-rewrite-event",
            EvidenceClass::UnauthenticatedEvent => "unauthenticated-event",
            EvidenceClass::BindingTreeMatch => "binding-tree-match",
            EvidenceClass::BindingRootRangeMatch => "binding-root-range-match",
            EvidenceClass::BindingRangeMatch => "binding-range-match",
        }
    }
}

/// A piece of evidence that a commit rewrites others.
#[derive(Debug)]
pub struct RewriteEvidence {
    pub class: EvidenceClass,
    pub predecessors: Vec<String>,
    pub binding_ids: Vec<String>,
    pub event_ids: Vec<String>,
}

/// A `RewriteEvidence` as a value.
#[verifier::ext_equal]
pub struct EvidenceView {
    pub class: EvidenceClass,
    pub predecessors: Seq<Seq<char>>,
    pub binding_ids: Seq<Seq<char>>,
    pub event_ids: Seq<Seq<char>>,
}

impl View for RewriteEvidence {
    type V = EvidenceView;

    open spec fn view(&self) -> EvidenceView {
        EvidenceView {
            class: self.class,
            predecessors: text::texts(self.predecessors@),
            binding_ids: text::texts(self.binding_ids@),
            event_ids: text::texts(self.event_ids@),
        }
    }
}

/// The views of a list of evidence.
pub open spec fn evidence_views(v: Seq<RewriteEvidence>) -> Seq<EvidenceView> {
    v.map_values(|e: RewriteEvidence| e@)
}

/// A stored binding, as far as its signature is valid and its ids are
/// readable.
#[derive(Debug)]
pub struct KnownBinding {
    pub id: String,
    /// The bound commit's id, in hexadecimal.
    pub commit: String,
    /// The bound tree's id, in hexadecimal.
    pub tree: String,
    /// Whether the merge base of the bound commit and the new commit's first
    /// parent is that parent.
    pub in_range: bool,
}

/// What the journal adds to the evidence.
pub open spec fn journal_evidence(l: LinkageView) -> Seq<EvidenceView> {
    let named: Seq<EvidenceView> = if l.predecessors.len() > 0 {
        seq![
            EvidenceView {
                class: EvidenceClass::PostRewriteEvent,
                predecessors: l.predecessors,
                binding_ids: seq![],
                event_ids: l.event_ids,
            },
        ]
    } else {
        seq![]
    };
    if l.unauthenticated > 0 {
        named.push(
            EvidenceView {
                class: EvidenceClass::UnauthenticatedEvent,
                predecessors: seq![],
                binding_ids: seq![],
                event_ids: seq![],
            },
        )
    } else {
        named
    }
}

/// The class of the hint that a binding gives, if it gives one: not for the
/// commit itself; the same tree; any binding for a root; otherwise a strict
/// descendant of the first parent.
pub open spec fn hint_class(
    sha: Seq<char>,
    tree: Seq<char>,
    first_parent: Option<Seq<char>>,
    b: KnownBinding,
) -> Option<EvidenceClass> {
    if b.commit@ == sha {
        None
    } else if b.tree@ == tree {
        Some(EvidenceClass::BindingTreeMatch)
    } else {
        match first_parent {
            None => Some(EvidenceClass::BindingRootRangeMatch),
            Some(p) => if p != b.commit@ && b.in_range {
                Some(EvidenceClass::BindingRangeMatch)
            } else {
                None
            },
        }
    }
}

/// What the first `n` bindings add to the evidence.
pub open spec fn binding_evidence(
    sha: Seq<char>,
    tree: Seq<char>,
    first_parent: Option<Seq<char>>,
    bs: Seq<KnownBinding>,
    n: int,
) -> Seq<EvidenceView>
    decreases n,
{
    if n <= 0 {
        seq![]
    } else {
        let head = binding_evidence(sha, tree, first_parent, bs, n - 1);
        match hint_class(sha, tree, first_parent, bs[n - 1]) {
            None => head,
            Some(class) => head.push(
                EvidenceView {
                    class,
                    predecessors: seq![bs[n - 1].commit@],
                    binding_ids: seq![bs[n - 1].id@],
                    event_ids: seq![],
                },
            ),
        }
    }
}

/// The ids by which a commit's bindings are judged: its tree's and its first
/// parent's.
pub open spec fn judging_ids(p: ParsedCommit) -> Seq<Seq<char>> {
    if p.parent_oids@.len() > 0 {
        seq![p.tree_oid@, p.parent_oids@[0]@]
    } else {
        seq![p.tree_oid@]
    }
}

/// The hexadecimal id of a commit's first parent.
pub open spec fn first_parent_hex(p: ParsedCommit) -> Option<Seq<char>> {
    if p.parent_oids@.len() > 0 {
        Some(oid::hex_text(oid::read_oid(p.parent_oids@[0]@)))
    } else {
        None
    }
}

/// All evidence that a commit rewrites others.
pub open spec fn evidence_of(p: ParsedCommit, l: LinkageView, bs: Seq<KnownBinding>) -> Seq<
    EvidenceView,
> {
    journal_evidence(l) + binding_evidence(
        p.git_sha@,
        oid::hex_text(oid::read_oid(p.tree_oid@)),
        first_parent_hex(p),
        bs,
        bs.len() as int,
    )
}

fn push_evidence(out: &mut Vec<RewriteEvidence>, e: RewriteEvidence)
    ensures
        evidence_views(final(out)@) == evidence_views(old(out)@).push(e@),
{
    let ghost before = evidence_views(out@);
    let ghost ev = e@;
    out.push(e);
    assert(evidence_views(out@) =~= before.push(ev));
}

fn one_text(s: &str) -> (r: Vec<String>)
    ensures
        text::texts(r@) == seq![s@],
{
    let mut v: Vec<String> = Vec::new();
    v.push(s.to_owned());
    assert(text::texts(v@) =~= seq![s@]);
    v
}

fn no_texts() -> (r: Vec<String>)
    ensures
        text::texts(r@) == Seq::<Seq<char>>::empty(),
{
    let v: Vec<String> = Vec::new();
    assert(text::texts(v@) =~= Seq::<Seq<char>>::empty());
    v
}

fn hint_of(sha: &str, tree: &str, first_parent: &Option<String>, b: &KnownBinding) -> (r: Option<
    EvidenceClass,
>)
    ensures
        r == hint_class(sha@, tree@, text::opt_text(*first_parent), *b),
{
    if same_text(&b.commit, sha) {
        None
    } else if same_text(&b.tree, tree) {
        Some(EvidenceClass::BindingTreeMatch)
    } else {
        match first_parent {
            None => Some(EvidenceClass::BindingRootRangeMatch),
            Some(p) => if !same_text(p, &b.commit) && b.in_range {
                Some(EvidenceClass::BindingRangeMatch)
            } else {
                None
            },
        }
    }
}

/// Collect the evidence that a commit rewrites others: what the journal
/// says, and what each stored binding hints at. It fails where the commit's
/// ids are not those of SHA-1 objects.
pub fn rewrite_evidence_for(
    parsed: &ParsedCommit,
    linkage: &RewriteLinkage,
    bindings: &Vec<KnownBinding>,
) -> (r: Result<Vec<RewriteEvidence>, CliError>)
    ensures
        r is Ok <==> oid::sound_ids(parsed.git_sha@, judging_ids(*parsed)),
        r matches Err(e) ==> oid::tells_unsound_ids(e, parsed.git_sha@, judging_ids(*parsed)),
        r matches Ok(v) ==> evidence_views(v@) == evidence_of(*parsed, linkage@, bindings@),
{
    proof {
        reveal_with_fuel(oid::first_refused, 3);
    }
    let algorithm = match git_algorithm_for_sha(&parsed.git_sha) {
        Ok(a) => a,
        Err(e) => {
            return Err(e);
        },
    };
    let tree = match git_object_id_for_sha(algorithm, &parsed.tree_oid) {
        Ok(id) => tagged_oid_hex(&id),
        Err(e) => {
            return Err(e);
        },
    };
    let first_parent: Option<String> = if parsed.parent_oids.len() > 0 {
        match git_object_id_for_sha(algorithm, &parsed.parent_oids[0]) {
            Ok(id) => Some(tagged_oid_hex(&id)),
            Err(e) => {
                return Err(e);
            },
        }
    } else {
        None
    };
    let mut out: Vec<RewriteEvidence> = Vec::new();
    assert(evidence_views(out@) =~= seq![]);
    let ghost l = linkage@;
    if linkage.predecessors.len() > 0 {
        push_evidence(
            &mut out,
            RewriteEvidence {
                class: EvidenceClass::PostRewriteEvent,
                predecessors: text::clone_texts(&linkage.predecessors),
                binding_ids: no_texts(),
                event_ids: text::clone_texts(&linkage.event_ids),
            },
        );
    }
    if linkage.unauthenticated > 0 {
        push_evidence(
            &mut out,
            RewriteEvidence {
                class: EvidenceClass::UnauthenticatedEvent,
                predecessors: no_texts(),
                binding_ids: no_texts(),
                event_ids: no_texts(),
            },
        );
    }
    let ghost base = journal_evidence(l);
    let ghost fp = text::opt_text(first_parent);
    assert(evidence_views(out@) =~= base);
    let mut i: usize = 0;
    assert(base + binding_evidence(parsed.git_sha@, tree@, fp, bindings@, 0) =~= base);
    while i < bindings.len()
        invariant
            i <= bindings@.len(),
            fp == text::opt_text(first_parent),
            evidence_views(out@) == base + binding_evidence(
                parsed.git_sha@,
                tree@,
                fp,
                bindings@,
                i as int,
            ),
        decreases bindings@.len() - i,
    {
        let b: &KnownBinding = &bindings[i];
        let ghost head = binding_evidence(parsed.git_sha@, tree@, fp, bindings@, i as int);
        if let Some(class) = hint_of(&parsed.git_sha, &tree, &first_parent, b) {
            let e = RewriteEvidence {
                class,
                predecessors: one_text(&b.commit),
                binding_ids: one_text(&b.id),
                event_ids: no_texts(),
            };
            let ghost ev = e@;
            push_evidence(&mut out, e);
            assert((base + head).push(ev) =~= base + head.push(ev));
        }
        i += 1;
    }
    Ok(out)
}

/// Whether some evidence is of the class `c`.
pub open spec fn has_class(es: Seq<EvidenceView>, c: EvidenceClass) -> bool {
    exists|i: int| 0 <= i < es.len() && (#[trigger] es[i]).class == c
}

/// What the evidence of a rewrite can at most show.
pub open spec fn identity_limit_text(es: Seq<EvidenceView>) -> Seq<char> {
    if has_class(es, EvidenceClass::PostRewriteEvent) {
        "operation-linkage-only: a captured post-rewrite event whose predecessors are locally interpreted commits links a Git rewrite operation; identity requires a verified predecessor binding or explicit review (RFC 5.4)"@
    } else if has_class(es, EvidenceClass::UnauthenticatedEvent) {
        "unauthenticated-evidence-only: no immutably captured operation backs this journal text; it is not operation linkage and identity requires a verified predecessor binding or explicit review (RFC 5.4)"@
    } else {
        "advisory-hint-only: binding similarity is never identity; identity requires a verified predecessor binding or explicit review (RFC 5.4)"@
    }
}

fn any_of_class(es: &Vec<RewriteEvidence>, c: EvidenceClass) -> (r: bool)
    ensures
        r == has_class(evidence_views(es@), c),
{
    let ghost ev = evidence_views(es@);
    let mut i: usize = 0;
    while i < es.len()
        invariant
            i <= es@.len(),
            ev == evidence_views(es@),
            forall|k: int| 0 <= k < i ==> (#[trigger] ev[k]).class != c,
        decreases es@.len() - i,
    {
        assert(ev[i as int] == es@[i as int]@);
        if es[i].class == c {
            return true;
        }
        i += 1;
    }
    false
}

/// What the evidence of a rewrite can at most show.
pub fn identity_limit(es: &Vec<RewriteEvidence>) -> (r: &'static str)
    ensures
        r@ == identity_limit_text(evidence_views(es@)),
{
    if any_of_class(es, EvidenceClass::PostRewriteEvent) {
        "operation-linkage-only: a captured post-rewrite event whose predecessors are locally interpreted commits links a Git rewrite operation; identity requires a verified predecessor binding or explicit review (RFC 5.4)"
    } else if any_of_class(es, EvidenceClass::UnauthenticatedEvent) {
        "unauthenticated-evidence-only: no immutably captured operation backs this journal text; it is not operation linkage and identity requires a verified predecessor binding or explicit review (RFC 5.4)"
    } else {
        "advisory-hint-only: binding similarity is never identity; identity requires a verified predecessor binding or explicit review (RFC 5.4)"
    }
}

/// A piece of evidence, as a tag carries it.
#[derive(Debug)]
pub struct CandidateEntry {
    /// The name of the evidence's class.
    pub class: &'static str,
    pub predecessor_oids: Vec<String>,
    pub binding_ids: Vec<String>,
    pub event_ids: Vec<String>,
    /// Whether the entry is only advice: always.
    pub advisory: bool,
    /// Whether a captured event backs the entry.
    pub authenticated: bool,
}

/// A `CandidateEntry` as a value.
#[verifier::ext_equal]
pub struct EntryView {
    pub class: Seq<char>,
    pub predecessor_oids: Seq<Seq<char>>,
    pub binding_ids: Seq<Seq<char>>,
    pub event_ids: Seq<Seq<char>>,
    pub advisory: bool,
    pub authenticated: bool,
}

impl View for CandidateEntry {
    type V = EntryView;

    open spec fn view(&self) -> EntryView {
        EntryView {
            class: self.class@,
            predecessor_oids: text::texts(self.predecessor_oids@),
            binding_ids: text::texts(self.binding_ids@),
            event_ids: text::texts(self.event_ids@),
            advisory: self.advisory,
            authenticated: self.authenticated,
        }
    }
}

/// The views of a list of entries.
pub open spec fn entry_views(v: Seq<CandidateEntry>) -> Seq<EntryView> {
    v.map_values(|e: CandidateEntry| e@)
}

/// The entry of a piece of evidence: all that it names, never more than
/// advice, and authenticated only by a captured event.
pub open spec fn entry_of(e: EvidenceView) -> EntryView {
    EntryView {
        class: class_name(e.class),
        predecessor_oids: e.predecessors,
        binding_ids: e.binding_ids,
        event_ids: e.event_ids,
        advisory: true,
        authenticated: e.class == EvidenceClass::PostRewriteEvent,
    }
}

/// The entries of a list of evidence, in order.
pub open spec fn entries_of(es: Seq<EvidenceView>) -> Seq<EntryView> {
    es.map_values(|e: EvidenceView| entry_of(e))
}

fn candidate_entries(evidence: &Vec<RewriteEvidence>) -> (r: Vec<CandidateEntry>)
    ensures
        entry_views(r@) == entries_of(evidence_views(evidence@)),
{
    let ghost ev = evidence_views(evidence@);
    let ghost want = entries_of(ev);
    let mut out: Vec<CandidateEntry> = Vec::new();
    let mut i: usize = 0;
    assert(entry_views(out@) =~= want.take(0));
    while i < evidence.len()
        invariant
            i <= evidence@.len(),
            ev == evidence_views(evidence@),
            want == entries_of(ev),
            entry_views(out@) == want.take(i as int),
        decreases evidence@.len() - i,
    {
        let e: &RewriteEvidence = &evidence[i];
        let ghost before = entry_views(out@);
        let entry = CandidateEntry {
            class: e.class.label(),
            predecessor_oids: text::clone_texts(&e.predecessors),
            binding_ids: text::clone_texts(&e.binding_ids),
            event_ids: text::clone_texts(&e.event_ids),
            advisory: true,
            authenticated: e.class == EvidenceClass::PostRewriteEvent,
        };
        let ghost view = entry@;
        assert(view =~= entry_of(ev[i as int]));
        out.push(entry);
        assert(entry_views(out@) =~= before.push(view));
        assert(entry_views(out@) =~= want.take(i as int + 1));
        i += 1;
    }
    assert(want.take(i as int) =~= want);
    out
}

/// The tag that links a commit to what it may rewrite.
#[derive(Debug)]
pub struct RewriteCandidateTag {
    pub name: String,
    pub message: String,
    pub git_sha: String,
    pub strategy: MergeStrategy,
    /// The evidence, exactly as it was found.
    pub entries: Vec<CandidateEntry>,
    pub identity_limit: &'static str,
}

/// The tag that links a commit to what it may rewrite; none without
/// evidence.
pub fn rewrite_candidate_link(parsed: &ParsedCommit, evidence: &Vec<RewriteEvidence>) -> (r: Option<
    RewriteCandidateTag,
>)
    ensures
        r is None <==> evidence@.len() == 0,
        r matches Some(t) ==> {
            &&& t.name@ == "rewrite-candidate-"@ + parsed.git_sha@
            &&& t.message@ == "RewriteCandidate: squash "@ + parsed.short_sha@
                + " linked by captured evidence"@
            &&& t.git_sha@ == parsed.git_sha@
            &&& t.strategy == MergeStrategy::Squash
            &&& entry_views(t.entries@) == entries_of(evidence_views(evidence@))
            &&& t.identity_limit@ == identity_limit_text(evidence_views(evidence@))
        },
{
    if evidence.len() == 0 {
        return None;
    }
    let mut name: String = "rewrite-candidate-".to_owned();
    name.append(&parsed.git_sha);
    let mut message: String = "RewriteCandidate: squash ".to_owned();
    message.append(&parsed.short_sha);
    message.append(" linked by captured evidence");
    Some(
        RewriteCandidateTag {
            name,
            message,
            git_sha: parsed.git_sha.as_str().to_owned(),
            strategy: MergeStrategy::Squash,
            entries: candidate_entries(evidence),
            identity_limit: identity_limit(evidence),
        },
    )
}

proof fn lemma_bindings_are_hints(
    sha: Seq<char>,
    tree: Seq<char>,
    first_parent: Option<Seq<char>>,
    bs: Seq<KnownBinding>,
    n: int,
)
    ensures
        forall|k: int|
            0 <= k < binding_evidence(sha, tree, first_parent, bs, n).len() ==> (
            #[trigger] binding_evidence(sha, tree, first_parent, bs, n)[k]).class
                != EvidenceClass::PostRewriteEvent,
    decreases n,
{
    if n > 0 {
        lemma_bindings_are_hints(sha, tree, first_parent, bs, n - 1);
    }
}

/// Whether the first `n` bindings hold one that gives this evidence.
pub open spec fn given_by(
    e: EvidenceView,
    sha: Seq<char>,
    tree: Seq<char>,
    first_parent: Option<Seq<char>>,
    bs: Seq<KnownBinding>,
    n: int,
) -> bool {
    exists|j: int|
        0 <= j < n && e.predecessors == seq![(#[trigger] bs[j]).commit@] && e.binding_ids == seq![
            bs[j].id@,
        ] && e.event_ids.len() == 0 && bs[j].commit@ != sha && match e.class {
            EvidenceClass::BindingTreeMatch => bs[j].tree@ == tree,
            EvidenceClass::BindingRootRangeMatch => bs[j].tree@ != tree && first_parent is None,
            EvidenceClass::BindingRangeMatch => bs[j].tree@ != tree && bs[j].in_range
                && first_parent is Some && bs[j].commit@ != first_parent->0,
            _ => false,
        }
}

proof fn lemma_hints_are_given(
    sha: Seq<char>,
    tree: Seq<char>,
    first_parent: Option<Seq<char>>,
    bs: Seq<KnownBinding>,
    n: int,
    k: int,
)
    requires
        0 <= n <= bs.len(),
        0 <= k < binding_evidence(sha, tree, first_parent, bs, n).len(),
    ensures
        given_by(
            binding_evidence(sha, tree, first_parent, bs, n)[k],
            sha,
            tree,
            first_parent,
            bs,
            n,
        ),
    decreases n,
{
    let all = binding_evidence(sha, tree, first_parent, bs, n);
    let head = binding_evidence(sha, tree, first_parent, bs, n - 1);
    if k < head.len() {
        lemma_hints_are_given(sha, tree, first_parent, bs, n - 1, k);
        let e = all[k];
        assert(e == head[k]);
        let j = choose|j: int|
            0 <= j < n - 1 && e.predecessors == seq![(#[trigger] bs[j]).commit@] && e.binding_ids
                == seq![bs[j].id@] && e.event_ids.len() == 0 && bs[j].commit@ != sha
                && match e.class {
                EvidenceClass::BindingTreeMatch => bs[j].tree@ == tree,
                EvidenceClass::BindingRootRangeMatch => bs[j].tree@ != tree && first_parent
                    is None,
                EvidenceClass::BindingRangeMatch => bs[j].tree@ != tree && bs[j].in_range
                    && first_parent is Some && bs[j].commit@ != first_parent->0,
                _ => false,
            };
        assert(bs[j].commit@ != sha);
    } else {
        assert(bs[n - 1].commit@ != sha);
    }
}

proof fn lemma_hint_is_kept(
    sha: Seq<char>,
    tree: Seq<char>,
    first_parent: Option<Seq<char>>,
    bs: Seq<KnownBinding>,
    n: int,
    j: int,
)
    requires
        0 <= j < n <= bs.len(),
        bs[j].commit@ != sha,
        bs[j].tree@ == tree || first_parent is None || bs[j].in_range && bs[j].commit@
            != first_parent->0,
    ensures
        exists|k: int|
            0 <= k < binding_evidence(sha, tree, first_parent, bs, n).len() && (
            #[trigger] binding_evidence(sha, tree, first_parent, bs, n)[k]).predecessors == seq![
                bs[j].commit@,
            ] && binding_evidence(sha, tree, first_parent, bs, n)[k].binding_ids == seq![
                bs[j].id@,
            ],
    decreases n,
{
    let all = binding_evidence(sha, tree, first_parent, bs, n);
    let head = binding_evidence(sha, tree, first_parent, bs, n - 1);
    if j == n - 1 {
        let e = all[head.len() as int];
        assert(e.predecessors == seq![bs[j].commit@] && e.binding_ids == seq![bs[j].id@]);
    } else {
        lemma_hint_is_kept(sha, tree, first_parent, bs, n - 1, j);
        let k = choose|k: int|
            0 <= k < head.len() && (#[trigger] head[k]).predecessors == seq![bs[j].commit@]
                && head[k].binding_ids == seq![bs[j].id@];
        assert(all[k] == head[k]);
    }
}

/// A binding is a hint only of what it can hint at. It names one known bound
/// commit and never the commit itself; with the same tree, or else, for a
/// commit without parents, any; and otherwise only a bound commit that lies
/// behind the first parent: never the first parent itself.
pub proof fn a_parent_is_no_predecessor(
    p: ParsedCommit,
    l: LinkageView,
    bs: Seq<KnownBinding>,
    k: int,
)
    requires
        0 <= k < evidence_of(p, l, bs).len(),
    ensures
        ({
            let e = evidence_of(p, l, bs)[k];
            let tree = oid::hex_text(oid::read_oid(p.tree_oid@));
            &&& e.class == EvidenceClass::BindingTreeMatch || e.class
                == EvidenceClass::BindingRangeMatch || e.class
                == EvidenceClass::BindingRootRangeMatch ==> exists|j: int|
                0 <= j < bs.len() && e.predecessors == seq![(#[trigger] bs[j]).commit@]
                    && e.binding_ids == seq![bs[j].id@] && bs[j].commit@ != p.git_sha@ && (e.class
                    == EvidenceClass::BindingTreeMatch <==> bs[j].tree@ == tree) && (e.class
                    == EvidenceClass::BindingRangeMatch ==> bs[j].in_range)
            &&& e.class == EvidenceClass::BindingRootRangeMatch ==> p.parent_oids@.len() == 0
            &&& e.class == EvidenceClass::BindingRangeMatch ==> p.parent_oids@.len() > 0
                && e.predecessors.len() == 1 && e.predecessors[0] != oid::hex_text(
                oid::read_oid(p.parent_oids@[0]@),
            )
        }),
{
    let tree = oid::hex_text(oid::read_oid(p.tree_oid@));
    let fp = first_parent_hex(p);
    let n = bs.len() as int;
    let journal = journal_evidence(l);
    let e = evidence_of(p, l, bs)[k];
    if k >= journal.len() {
        let i = k - journal.len();
        assert(e == binding_evidence(p.git_sha@, tree, fp, bs, n)[i]);
        lemma_hints_are_given(p.git_sha@, tree, fp, bs, n, i);
        let j = choose|j: int|
            0 <= j < n && e.predecessors == seq![(#[trigger] bs[j]).commit@] && e.binding_ids
                == seq![bs[j].id@] && e.event_ids.len() == 0 && bs[j].commit@ != p.git_sha@
                && match e.class {
                EvidenceClass::BindingTreeMatch => bs[j].tree@ == tree,
                EvidenceClass::BindingRootRangeMatch => bs[j].tree@ != tree && fp is None,
                EvidenceClass::BindingRangeMatch => bs[j].tree@ != tree && bs[j].in_range && fp
                    is Some && bs[j].commit@ != fp->0,
                _ => false,
            };
        assert(bs[j].commit@ != p.git_sha@);
    }
}

/// No hint is passed over: a bound commit with the commit's tree, behind its
/// first parent, or beside a commit without parents, is named as evidence
/// with its binding.
pub proof fn every_hint_is_evidence(
    p: ParsedCommit,
    l: LinkageView,
    bs: Seq<KnownBinding>,
    j: int,
)
    requires
        0 <= j < bs.len(),
        bs[j].commit@ != p.git_sha@,
        bs[j].tree@ == oid::hex_text(oid::read_oid(p.tree_oid@)) || p.parent_oids@.len() == 0
            || bs[j].in_range && bs[j].commit@ != oid::hex_text(
            oid::read_oid(p.parent_oids@[0]@),
        ),
    ensures
        exists|k: int|
            0 <= k < evidence_of(p, l, bs).len() && (#[trigger] evidence_of(
                p,
                l,
                bs,
            )[k]).predecessors == seq![bs[j].commit@] && evidence_of(p, l, bs)[k].binding_ids
                == seq![bs[j].id@],
{
    let tree = oid::hex_text(oid::read_oid(p.tree_oid@));
    let fp = first_parent_hex(p);
    let n = bs.len() as int;
    lemma_hint_is_kept(p.git_sha@, tree, fp, bs, n, j);
    let hints = binding_evidence(p.git_sha@, tree, fp, bs, n);
    let i = choose|i: int|
        0 <= i < hints.len() && (#[trigger] hints[i]).predecessors == seq![bs[j].commit@]
            && hints[i].binding_ids == seq![bs[j].id@];
    let k = journal_evidence(l).len() + i;
    assert(evidence_of(p, l, bs)[k] == hints[i]);
}

/// Evidence never establishes identity: every entry of a candidate is only
/// advice, and one counts as authenticated only where it stands for the
/// captured events of the journal, with all that they name.
pub proof fn candidates_are_only_advice(
    p: ParsedCommit,
    l: LinkageView,
    bs: Seq<KnownBinding>,
    k: int,
)
    requires
        0 <= k < evidence_of(p, l, bs).len(),
    ensures
        ({
            let e = entries_of(evidence_of(p, l, bs))[k];
            &&& e.advisory
            &&& e.authenticated ==> l.predecessors.len() > 0 && e.predecessor_oids
                == l.predecessors && e.event_ids == l.event_ids
        }),
{
    let tree = oid::hex_text(oid::read_oid(p.tree_oid@));
    lemma_bindings_are_hints(p.git_sha@, tree, first_parent_hex(p), bs, bs.len() as int);
    let journal = journal_evidence(l);
    let es = evidence_of(p, l, bs);
    if k >= journal.len() {
        assert(es[k] == binding_evidence(
            p.git_sha@,
            tree,
            first_parent_hex(p),
            bs,
            bs.len() as int,
        )[k - journal.len()]);
    }
}

/// Only the pairs of a commit name its predecessors: an id is matched exactly
/// when some full pair has the commit as its new side and that id as its old.
pub proof fn only_pairs_of_the_commit_match(ps: Seq<PairView>, sha: Seq<char>, n: int, old: Seq<char>)
    requires
        0 <= n <= ps.len(),
    ensures
        matched_oids(ps, sha, n).contains(old) <==> exists|i: int|
            0 <= i < n && full_pair(#[trigger] ps[i]) && text::lowered(
                text_or_empty(ps[i].new_oid),
            ) == text::lowered(sha) && text::lowered(text_or_empty(ps[i].old_oid)) == old,
    decreases n,
{
    if n > 0 {
        only_pairs_of_the_commit_match(ps, sha, n - 1, old);
        let head = matched_oids(ps, sha, n - 1);
        let all = matched_oids(ps, sha, n);
        if all.contains(old) {
            let j = choose|j: int| 0 <= j < all.len() && all[j] == old;
            if j < head.len() {
                assert(head[j] == old);
                assert(head.contains(old));
            } else {
                assert(full_pair(ps[n - 1]));
            }
        }
        if head.contains(old) {
            let j = choose|j: int| 0 <= j < head.len() && head[j] == old;
            assert(all[j] == old);
        }
        let p = ps[n - 1];
        if full_pair(p) && text::lowered(text_or_empty(p.new_oid)) == text::lowered(sha)
            && text::lowered(text_or_empty(p.old_oid)) == old {
            assert(all[head.len() as int] == old);
        }
    } else {
        assert(matched_oids(ps, sha, n).len() == 0);
    }
}

/// A journal line names predecessors only where it is a rewrite that is
/// marked as advice and carries the expected interpretation; and a line that
/// is taken at its word in nothing is counted, unless it is another record.
pub proof fn only_marked_rewrites_are_read(
    record: Option<RecordView>,
    interpretation: Seq<char>,
    sha: Seq<char>,
)
    ensures
        ({
            let r = reading_of(record, interpretation, sha);
            let marked = record matches Some(v) && v.record_type == Some("post-rewrite"@)
                && v.advisory == Some(true) && v.interpretation == Some(interpretation)
                && v.rewritten is Some;
            let other = record matches Some(v) && v.record_type != Some("post-rewrite"@);
            &&& r.matched.len() > 0 ==> marked
            &&& !marked && !other ==> r.untrusted == 1 && r.matched.len() == 0
            &&& other ==> r.untrusted == 0 && r.matched.len() == 0
            &&& marked ==> r.event_id == text_or_empty(record->0.event_id)
        }),
{
}

/// Nothing that a journal says is lost: a line that names predecessors is
/// taken in or counted, and what was taken in before stays.
pub proof fn every_line_counts(l: LinkageView, r: ReadingView, f: CaptureFacts)
    ensures
        ({
            let a = after_line(l, r, f);
            &&& a.untrusted == l.untrusted + r.untrusted
            &&& r.matched.len() > 0 ==> a.predecessors.len() + a.unauthenticated
                > l.predecessors.len() + l.unauthenticated
            &&& a.predecessors.take(l.predecessors.len() as int) == l.predecessors
            &&& a.event_ids.len() > l.event_ids.len() <==> r.matched.len() > 0 && authenticated(
                r,
                f,
            )
        }),
{
    let a = after_line(l, r, f);
    assert(a.predecessors.take(l.predecessors.len() as int) =~= l.predecessors);
}

/// What the journal says shows in the evidence: a captured event exactly
/// where predecessors were linked, all of them in order with their events,
/// and an unauthenticated one exactly where some line was not backed; and
/// those two only.
pub proof fn journal_evidence_shows_what_was_said(l: LinkageView)
    ensures
        ({
            let es = journal_evidence(l);
            &&& has_class(es, EvidenceClass::PostRewriteEvent) <==> l.predecessors.len() > 0
            &&& has_class(es, EvidenceClass::UnauthenticatedEvent) <==> l.unauthenticated > 0
            &&& es.len() <= 2
            &&& forall|k: int|
                0 <= k < es.len() ==> {
                    ||| (#[trigger] es[k]).class == EvidenceClass::PostRewriteEvent
                        && es[k].predecessors == l.predecessors && es[k].event_ids == l.event_ids
                    ||| es[k].class == EvidenceClass::UnauthenticatedEvent
                        && es[k].predecessors.len() == 0 && es[k].event_ids.len() == 0
                }
        }),
{
    let es = journal_evidence(l);
    if l.predecessors.len() > 0 {
        assert(es[0].class == EvidenceClass::PostRewriteEvent);
    }
    if l.unauthenticated > 0 {
        assert(es[es.len() - 1].class == EvidenceClass::UnauthenticatedEvent);
    }
}

} // verus!
