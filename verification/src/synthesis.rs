//! How one Git commit is turned into a change: where it comes from, what
//! each of its files amounts to, and what is recorded for it.
use crate::commit;
use crate::commit::{FileOperation, ParsedCommit, ParsedFile};
use crate::error::{git_error, internal_error, CliError, Failure};
use crate::graph;
use crate::line_units;
use crate::line_units::{clone_bytes, same_bytes, similarity_bps};
use crate::message;
use crate::message::parse_squash_merge_format;
use crate::oid;
use crate::oid::{git_algorithm_for_sha, git_object_id_for_sha, GitObjectId};
use crate::push::GitHashAlgorithm;
use crate::text;
use crate::text::{contains_text, same_text, to_decimal, to_octal};
use crate::tree;
use crate::tree::{repository_mode, InodeKind};
use vstd::prelude::*;

verus! {

/// How a change was derived from Git.
#[derive(Clone, Copy, Debug, PartialEq, Eq, Structural)]
pub enum GitDerivation {
    Root,
    FirstParent,
    Squash,
    EmptyCommit,
}

/// The Git objects that a change was synthesized from.
#[derive(Debug)]
pub struct GitSynthesisOrigin {
    pub commit: GitObjectId,
    pub tree: GitObjectId,
    pub parents: Vec<GitObjectId>,
    pub derivation: GitDerivation,
}

/// A `GitSynthesisOrigin` as a value.
#[verifier::ext_equal]
pub struct OriginView {
    pub commit: oid::ObjectIdView,
    pub tree: oid::ObjectIdView,
    pub parents: Seq<oid::ObjectIdView>,
    pub derivation: GitDerivation,
}

/// The views of a list of object ids.
pub open spec fn id_views(v: Seq<GitObjectId>) -> Seq<oid::ObjectIdView> {
    v.map_values(|i: GitObjectId| i@)
}

impl View for GitSynthesisOrigin {
    type V = OriginView;

    open spec fn view(&self) -> OriginView {
        OriginView {
            commit: self.commit@,
            tree: self.tree@,
            parents: id_views(self.parents@),
            derivation: self.derivation,
        }
    }
}

/// How a commit with changes is derived; `None` for a merge.
pub open spec fn derivation_of(parents: nat, squash_shaped: bool) -> Option<GitDerivation> {
    if parents > 1 {
        None
    } else if squash_shaped {
        Some(GitDerivation::Squash)
    } else if parents == 0 {
        Some(GitDerivation::Root)
    } else {
        Some(GitDerivation::FirstParent)
    }
}

/// Why a merge is not synthesized as a single commit.
pub open spec fn merge_refusal(sha: Seq<char>, parents: nat) -> Seq<char> {
    "commit "@ + sha + " has "@ + text::decimal(parents)
        + " parents; multi-parent commits take the GitResolution path, not single-commit synthesis"@
}

/// How a commit with changes is derived.
pub fn derivation_for(sha: &str, parents: usize, squash_shaped: bool) -> (r: Result<
    GitDerivation,
    CliError,
>)
    ensures
        match derivation_of(parents as nat, squash_shaped) {
            Some(d) => r == Ok::<GitDerivation, CliError>(d),
            None => r matches Err(e) && e.is_git_error(merge_refusal(sha@, parents as nat)),
        },
{
    if parents > 1 {
        let mut m: String = "commit ".to_owned();
        m.append(sha);
        m.append(" has ");
        m.append(&to_decimal(parents as u64));
        m.append(
            " parents; multi-parent commits take the GitResolution path, not single-commit synthesis",
        );
        return Err(git_error(m));
    }
    if squash_shaped {
        Ok(GitDerivation::Squash)
    } else if parents == 0 {
        Ok(GitDerivation::Root)
    } else {
        Ok(GitDerivation::FirstParent)
    }
}

/// The ids by which a commit is told: its own, its tree's and its parents'.
pub open spec fn commit_ids(p: ParsedCommit) -> Seq<Seq<char>> {
    seq![p.git_sha@, p.tree_oid@] + text::texts(p.parent_oids@)
}

/// The object that a text names.
pub open spec fn named_object(s: Seq<char>) -> oid::ObjectIdView {
    oid::ObjectIdView { algorithm: GitHashAlgorithm::Sha1, bytes: oid::read_oid(s) }
}

/// The objects that a list of texts names.
pub open spec fn named_objects(ss: Seq<Seq<char>>) -> Seq<oid::ObjectIdView> {
    ss.map_values(|s: Seq<char>| named_object(s))
}

/// Read the ids of a commit's parents.
pub fn read_parents(parents: &Vec<String>, algorithm: GitHashAlgorithm) -> (r: Result<
    Vec<GitObjectId>,
    CliError,
>)
    ensures
        match oid::first_refused(algorithm, text::texts(parents@), 0) {
            None => r matches Ok(v) && id_views(v@) == named_objects(text::texts(parents@)),
            Some(s) => r matches Err(e) && oid::tells_refusal(e, algorithm, s),
        },
{
    let ghost pv = text::texts(parents@);
    let ghost want = named_objects(pv);
    let mut out: Vec<GitObjectId> = Vec::new();
    let mut i: usize = 0;
    assert(id_views(out@) =~= want.take(0));
    while i < parents.len()
        invariant
            i <= parents@.len(),
            pv == text::texts(parents@),
            want == named_objects(pv),
            id_views(out@) == want.take(i as int),
            oid::first_refused(algorithm, pv, 0) == oid::first_refused(algorithm, pv, i as int),
        decreases parents@.len() - i,
    {
        assert(pv[i as int] == parents@[i as int]@);
        match git_object_id_for_sha(algorithm, &parents[i]) {
            Ok(id) => {
                let ghost before = id_views(out@);
                let ghost iv = id@;
                assert(iv == want[i as int]);
                out.push(id);
                assert(id_views(out@) =~= before.push(iv));
                assert(id_views(out@) =~= want.take(i as int + 1));
            },
            Err(e) => {
                return Err(e);
            },
        }
        i += 1;
    }
    assert(want.take(i as int) =~= want);
    Ok(out)
}

proof fn lemma_refused_parents(p: ParsedCommit, a: GitHashAlgorithm)
    ensures
        oid::first_refused(a, commit_ids(p), 0) == if oid::refused(a, p.git_sha@) {
            Some(p.git_sha@)
        } else if oid::refused(a, p.tree_oid@) {
            Some(p.tree_oid@)
        } else {
            oid::first_refused(a, text::texts(p.parent_oids@), 0)
        },
{
    let head = seq![p.git_sha@, p.tree_oid@];
    let tail = text::texts(p.parent_oids@);
    let ids = commit_ids(p);
    assert(ids[0] == p.git_sha@);
    assert(ids[1] == p.tree_oid@);
    oid::lemma_refused_behind(a, head, tail, 0);
    assert(oid::first_refused(a, ids, 1) == if oid::refused(a, p.tree_oid@) {
        Some(p.tree_oid@)
    } else {
        oid::first_refused(a, ids, 2)
    });
}

/// The origin of a commit, with this derivation. It has one whenever all of
/// its ids are those of SHA-1 objects.
pub fn origin_of(parsed: &ParsedCommit, derivation: GitDerivation) -> (r: Result<
    GitSynthesisOrigin,
    CliError,
>)
    ensures
        r matches Ok(o) ==> o@ == (OriginView {
            commit: named_object(parsed.git_sha@),
            tree: named_object(parsed.tree_oid@),
            parents: named_objects(text::texts(parsed.parent_oids@)),
            derivation,
        }),
        r is Ok <==> oid::sound_ids(parsed.git_sha@, commit_ids(*parsed)),
        r matches Err(e) ==> oid::tells_unsound_ids(e, parsed.git_sha@, commit_ids(*parsed)),
{
    proof {
        lemma_refused_parents(*parsed, GitHashAlgorithm::Sha1);
        lemma_refused_parents(*parsed, GitHashAlgorithm::Sha256);
    }
    let algorithm = match git_algorithm_for_sha(&parsed.git_sha) {
        Ok(a) => a,
        Err(e) => {
            return Err(e);
        },
    };
    let commit = match git_object_id_for_sha(algorithm, &parsed.git_sha) {
        Ok(id) => id,
        Err(e) => {
            return Err(e);
        },
    };
    let tree = match git_object_id_for_sha(algorithm, &parsed.tree_oid) {
        Ok(id) => id,
        Err(e) => {
            return Err(e);
        },
    };
    let parents = match read_parents(&parsed.parent_oids, algorithm) {
        Ok(v) => v,
        Err(e) => {
            return Err(e);
        },
    };
    Ok(GitSynthesisOrigin { commit, tree, parents, derivation })
}

/// The origin of a commit with changes: squash-shaped where its message has
/// the form of a squash merge.
pub fn synthesis_origin(parsed: &ParsedCommit) -> (r: Result<GitSynthesisOrigin, CliError>)
    ensures
        ({
            let n = parsed.parent_oids@.len();
            let shaped = message::squash_number(
                text::lines_of(
                    message::full_text(
                        parsed.metadata.message@,
                        text::opt_text(parsed.metadata.description),
                    ),
                ),
            ) is Some;
            let sound = oid::sound_ids(parsed.git_sha@, commit_ids(*parsed));
            &&& r matches Ok(o) ==> o@ == (OriginView {
                commit: named_object(parsed.git_sha@),
                tree: named_object(parsed.tree_oid@),
                parents: named_objects(text::texts(parsed.parent_oids@)),
                derivation: derivation_of(n, shaped)->0,
            })
            &&& r is Ok <==> sound && n <= 1
            &&& r matches Err(e) ==> if oid::sha_algorithm(parsed.git_sha@) is Some && n > 1 {
                e.is_git_error(merge_refusal(parsed.git_sha@, n))
            } else {
                oid::tells_unsound_ids(e, parsed.git_sha@, commit_ids(*parsed))
            }
        }),
{
    match git_algorithm_for_sha(&parsed.git_sha) {
        Ok(_) => {},
        Err(e) => {
            return Err(e);
        },
    }
    let shaped: bool = parse_squash_merge_format(&parsed.full_message()).is_some();
    match derivation_for(&parsed.git_sha, parsed.parent_oids.len(), shaped) {
        Ok(d) => origin_of(parsed, d),
        Err(e) => Err(e),
    }
}

/// A write to the attributes of a file.
#[derive(Clone, Copy, Debug, PartialEq, Eq, Structural)]
pub enum InodeAttr {
    Mode(u32),
    Kind(InodeKind),
}

/// The attributes that a view projects for a file.
#[derive(Clone, Copy, Debug, PartialEq, Eq, Structural)]
pub struct ProjectedAttributes {
    pub conflicted: bool,
    pub mode: u32,
    pub kind: InodeKind,
}

/// What a file of a commit amounts to in the target view.
#[derive(Clone, Copy, Debug, PartialEq, Eq, Structural)]
pub enum EffectiveOp {
    Added,
    ModifiedFullReplace,
    Modified,
    Deleted,
    Renamed,
    Skip,
}

/// What the target view holds for a file.
#[derive(Debug)]
pub struct FileObservation {
    pub view_baseline: Option<Vec<u8>>,
    pub projected: Option<ProjectedAttributes>,
}

/// What is to be recorded for a file.
#[derive(Debug)]
pub struct FilePlan {
    pub op: EffectiveOp,
    /// The bytes that the file is compared with.
    pub baseline: Vec<u8>,
    pub attrs: Vec<InodeAttr>,
}

/// A `FilePlan` as a value.
#[verifier::ext_equal]
pub struct FilePlanView {
    pub op: EffectiveOp,
    pub baseline: Seq<u8>,
    pub attrs: Seq<InodeAttr>,
}

impl View for FilePlan {
    type V = FilePlanView;

    open spec fn view(&self) -> FilePlanView {
        FilePlanView { op: self.op, baseline: self.baseline@, attrs: self.attrs@ }
    }
}

/// Why a mode cannot be projected.
pub open spec fn unprojectable_mode(mode: u32) -> Seq<char> {
    "unsupported Git file mode 0o"@ + text::octal(mode as nat)
        + "; refusing to synthesize attributes that cannot project this representation"@
}

/// The kind and mode that a Git mode requires.
pub fn expected_materialization(git_mode: u32) -> (r: Result<(InodeKind, u32), CliError>)
    ensures
        match tree::kind_and_mode(git_mode) {
            Some(km) => r == Ok::<(InodeKind, u32), CliError>(km),
            None => r matches Err(e) && e.is_git_error(unprojectable_mode(git_mode)),
        },
{
    match repository_mode(git_mode) {
        Some(km) => Ok(km),
        None => {
            let mut m: String = "unsupported Git file mode 0o".to_owned();
            m.append(&to_octal(git_mode));
            m.append(
                "; refusing to synthesize attributes that cannot project this representation",
            );
            Err(git_error(m))
        },
    }
}

/// The attribute writes that lead from the projected attributes to the
/// expected ones.
pub open spec fn attribute_delta(
    expected: Option<(InodeKind, u32)>,
    projected: Option<ProjectedAttributes>,
) -> Seq<InodeAttr> {
    match expected {
        None => seq![],
        Some((kind, mode)) => match projected {
            None => seq![InodeAttr::Mode(mode), InodeAttr::Kind(kind)],
            Some(p) => {
                let a: Seq<InodeAttr> = if p.mode != mode {
                    seq![InodeAttr::Mode(mode)]
                } else {
                    seq![]
                };
                if p.kind != kind {
                    a.push(InodeAttr::Kind(kind))
                } else {
                    a
                }
            },
        },
    }
}

fn attributes_to_write(
    expected: Option<(InodeKind, u32)>,
    projected: Option<ProjectedAttributes>,
) -> (r: Vec<InodeAttr>)
    ensures
        r@ == attribute_delta(expected, projected),
{
    let mut out: Vec<InodeAttr> = Vec::new();
    if let Some((kind, mode)) = expected {
        match projected {
            None => {
                out.push(InodeAttr::Mode(mode));
                out.push(InodeAttr::Kind(kind));
            },
            Some(p) => {
                if p.mode != mode {
                    out.push(InodeAttr::Mode(mode));
                }
                if p.kind != kind {
                    out.push(InodeAttr::Kind(kind));
                }
            },
        }
    }
    assert(out@ =~= attribute_delta(expected, projected));
    out
}

/// The bytes that a file is compared with: those of the Git parent's tree,
/// or else those of the view.
pub open spec fn baseline_of(old_content: Option<Seq<u8>>, view: Option<Seq<u8>>) -> Option<
    Seq<u8>,
> {
    match old_content {
        Some(b) => Some(b),
        None => view,
    }
}

/// Bytes, or none at all.
pub open spec fn bytes_or_empty(b: Option<Seq<u8>>) -> Seq<u8> {
    match b {
        Some(b) => b,
        None => seq![],
    }
}

/// What a file amounts to; `None` where a modified file has no baseline.
pub open spec fn effective_op(
    f: commit::ParsedFileView,
    view: Option<Seq<u8>>,
    attrs: Seq<InodeAttr>,
) -> Option<EffectiveOp> {
    let baseline = baseline_of(f.old_content, view);
    match f.operation {
        FileOperation::Added | FileOperation::Copied => match view {
            None => Some(EffectiveOp::Added),
            Some(bytes) => if bytes == bytes_or_empty(f.new_content) {
                if attrs.len() == 0 {
                    Some(EffectiveOp::Skip)
                } else {
                    Some(EffectiveOp::Modified)
                }
            } else if baseline is Some {
                Some(EffectiveOp::Modified)
            } else {
                Some(EffectiveOp::ModifiedFullReplace)
            },
        },
        FileOperation::Modified => if baseline is None {
            None
        } else {
            Some(EffectiveOp::Modified)
        },
        FileOperation::Deleted => if view is Some || baseline is Some {
            Some(EffectiveOp::Deleted)
        } else {
            Some(EffectiveOp::Skip)
        },
        FileOperation::Renamed => Some(EffectiveOp::Renamed),
    }
}

/// Why attributes cannot be written.
pub open spec fn conflicted_text(path: Seq<char>, target: Seq<char>) -> Seq<char> {
    "path '"@ + path + "' has conflicted inode attribute registers in view '"@ + target
        + "'; refusing to synthesize attributes over an unresolved register"@
}

/// Why a modified file cannot be recorded.
pub open spec fn no_baseline_text(sha: Seq<char>, path: Seq<char>) -> Seq<char> {
    "commit "@ + sha + " classifies '"@ + path
        + "' as modified but neither the Git parent tree nor the exact assembly closure holds it; refusing to fabricate a baseline"@
}

/// What is to be recorded for a file, or why the commit is refused.
pub open spec fn file_plan(
    f: commit::ParsedFileView,
    view: Option<Seq<u8>>,
    observed: Option<ProjectedAttributes>,
    sha: Seq<char>,
    target: Seq<char>,
) -> Result<FilePlanView, Failure> {
    let projected = if f.new_mode is Some {
        observed
    } else {
        None
    };
    let wants = f.new_mode is Some && f.operation != FileOperation::Deleted;
    if wants && tree::kind_and_mode(f.new_mode->0) is None {
        Err(Failure::Git(unprojectable_mode(f.new_mode->0)))
    } else if projected is Some && projected->0.conflicted {
        Err(Failure::Internal(conflicted_text(f.path, target)))
    } else {
        let expected = if wants {
            tree::kind_and_mode(f.new_mode->0)
        } else {
            None
        };
        let attrs = attribute_delta(expected, projected);
        match effective_op(f, view, attrs) {
            None => Err(Failure::Git(no_baseline_text(sha, f.path))),
            Some(op) => Ok(
                FilePlanView {
                    op,
                    baseline: bytes_or_empty(baseline_of(f.old_content, view)),
                    attrs,
                },
            ),
        }
    }
}

fn classify(file: &ParsedFile, view: &Option<Vec<u8>>, no_attrs: bool) -> (r: Option<EffectiveOp>)
    ensures
        forall|attrs: Seq<InodeAttr>|
            no_attrs == (attrs.len() == 0) ==> r == #[trigger] effective_op(
                file@,
                graph::opt_bytes(*view),
                attrs,
            ),
{
    let has_baseline: bool = file.old_content.is_some() || view.is_some();
    match file.operation {
        FileOperation::Modified => if has_baseline {
            Some(EffectiveOp::Modified)
        } else {
            None
        },
        FileOperation::Deleted => if has_baseline {
            Some(EffectiveOp::Deleted)
        } else {
            Some(EffectiveOp::Skip)
        },
        FileOperation::Renamed => Some(EffectiveOp::Renamed),
        _ => match view {
            None => Some(EffectiveOp::Added),
            Some(bytes) => {
                let same: bool = match &file.new_content {
                    Some(c) => same_bytes(bytes, c),
                    None => bytes.len() == 0,
                };
                assert(same == (bytes@ =~= bytes_or_empty(file@.new_content)));
                if same {
                    if no_attrs {
                        Some(EffectiveOp::Skip)
                    } else {
                        Some(EffectiveOp::Modified)
                    }
                } else if has_baseline {
                    Some(EffectiveOp::Modified)
                } else {
                    Some(EffectiveOp::ModifiedFullReplace)
                }
            },
        },
    }
}

/// Plan what is to be recorded for a file of a commit.
pub fn plan_file(file: &ParsedFile, seen: &FileObservation, sha: &str, target: &str) -> (r: Result<
    FilePlan,
    CliError,
>)
    ensures
        match file_plan(
            file@,
            graph::opt_bytes(seen.view_baseline),
            seen.projected,
            sha@,
            target@,
        ) {
            Ok(v) => r matches Ok(p) && p@ == v,
            Err(f) => r matches Err(e) && e.tells(f),
        },
{
    let expected: Option<(InodeKind, u32)> = match file.new_mode {
        Some(mode) => if file.operation == FileOperation::Deleted {
            None
        } else {
            match expected_materialization(mode) {
                Ok(km) => Some(km),
                Err(e) => {
                    return Err(e);
                },
            }
        },
        None => None,
    };
    let projected: Option<ProjectedAttributes> = if file.new_mode.is_some() {
        seen.projected
    } else {
        None
    };
    if let Some(p) = projected {
        if p.conflicted {
            let mut m: String = "path '".to_owned();
            m.append(&file.path);
            m.append("' has conflicted inode attribute registers in view '");
            m.append(target);
            m.append("'; refusing to synthesize attributes over an unresolved register");
            return Err(internal_error(m));
        }
    }
    let attrs = attributes_to_write(expected, projected);
    let op = match classify(file, &seen.view_baseline, attrs.len() == 0) {
        Some(op) => op,
        None => {
            let mut m: String = "commit ".to_owned();
            m.append(sha);
            m.append(" classifies '");
            m.append(&file.path);
            m.append(
                "' as modified but neither the Git parent tree nor the exact assembly closure holds it; refusing to fabricate a baseline",
            );
            return Err(git_error(m));
        },
    };
    let baseline: Vec<u8> = match &file.old_content {
        Some(b) => clone_bytes(b),
        None => match &seen.view_baseline {
            Some(b) => clone_bytes(b),
            None => Vec::new(),
        },
    };
    assert(baseline@ =~= bytes_or_empty(
        baseline_of(file@.old_content, graph::opt_bytes(seen.view_baseline)),
    ));
    Ok(FilePlan { op, baseline, attrs })
}

/// The views of a list of plans.
pub open spec fn plan_views(v: Seq<FilePlan>) -> Seq<FilePlanView> {
    v.map_values(|p: FilePlan| p@)
}

/// Whether a planned file gives up these bytes.
pub open spec fn gives_up(p: FilePlanView, bytes: Seq<u8>) -> bool {
    (p.op == EffectiveOp::Renamed || p.op == EffectiveOp::Deleted) && p.baseline == bytes
}

/// Whether a planned file brings these bytes.
pub open spec fn brings(f: commit::ParsedFileView, p: FilePlanView, bytes: Seq<u8>) -> bool {
    (p.op == EffectiveOp::Renamed || p.op == EffectiveOp::Added) && f.new_content == Some(bytes)
}

/// How many of the first `n` files give up these bytes.
pub open spec fn sources_of(ps: Seq<FilePlanView>, bytes: Seq<u8>, n: int) -> nat
    decreases n,
{
    if n <= 0 {
        0
    } else {
        sources_of(ps, bytes, n - 1) + if gives_up(ps[n - 1], bytes) {
            1nat
        } else {
            0nat
        }
    }
}

/// How many of the first `n` files bring these bytes.
pub open spec fn destinations_of(
    fs: Seq<commit::ParsedFileView>,
    ps: Seq<FilePlanView>,
    bytes: Seq<u8>,
    n: int,
) -> nat
    decreases n,
{
    if n <= 0 {
        0
    } else {
        destinations_of(fs, ps, bytes, n - 1) + if brings(fs[n - 1], ps[n - 1], bytes) {
            1nat
        } else {
            0nat
        }
    }
}

/// Whether a rename could as well have been paired otherwise: another file
/// gives up the same bytes, or brings the same.
pub open spec fn pairing_ambiguous(
    fs: Seq<commit::ParsedFileView>,
    ps: Seq<FilePlanView>,
    i: int,
) -> bool {
    sources_of(ps, ps[i].baseline, ps.len() as int) > 1 || destinations_of(
        fs,
        ps,
        bytes_or_empty(fs[i].new_content),
        ps.len() as int,
    ) > 1
}

/// Whether a file brings bytes.
fn content_is(file: &ParsedFile, bytes: &Vec<u8>) -> (r: bool)
    ensures
        r == (file@.new_content == Some(bytes@)),
{
    match &file.new_content {
        Some(c) => {
            assert(c@ =~= bytes@ ==> file@.new_content == Some(bytes@));
            same_bytes(c, bytes)
        },
        None => false,
    }
}

/// The new content of a file, empty where it has none.
fn new_bytes_of(file: &ParsedFile) -> (r: Vec<u8>)
    ensures
        r@ == bytes_or_empty(file@.new_content),
{
    match &file.new_content {
        Some(c) => clone_bytes(c),
        None => {
            let r: Vec<u8> = Vec::new();
            assert(r@ =~= Seq::<u8>::empty());
            r
        },
    }
}

/// Whether the pairing of a rename carries no information.
pub fn renamed_pairing_is_ambiguous(files: &Vec<ParsedFile>, plans: &Vec<FilePlan>, i: usize) -> (r:
    bool)
    requires
        files@.len() == plans@.len(),
        i < files@.len(),
    ensures
        r == pairing_ambiguous(commit::file_views(files@), plan_views(plans@), i as int),
{
    let ghost fs = commit::file_views(files@);
    let ghost ps = plan_views(plans@);
    let new_bytes = new_bytes_of(&files[i]);
    let old_bytes = clone_bytes(&plans[i].baseline);
    assert(ps[i as int].baseline == old_bytes@);
    assert(fs[i as int] == files@[i as int]@);
    let mut sources: usize = 0;
    let mut destinations: usize = 0;
    let mut k: usize = 0;
    while k < plans.len()
        invariant
            k <= plans@.len(),
            sources <= k,
            destinations <= k,
            files@.len() == plans@.len(),
            fs == commit::file_views(files@),
            ps == plan_views(plans@),
            sources == sources_of(ps, old_bytes@, k as int),
            destinations == destinations_of(fs, ps, new_bytes@, k as int),
        decreases plans@.len() - k,
    {
        assert(ps[k as int] == plans@[k as int]@);
        assert(fs[k as int] == files@[k as int]@);
        let p: &FilePlan = &plans[k];
        let same_old: bool = same_bytes(&p.baseline, &old_bytes);
        if (p.op == EffectiveOp::Renamed || p.op == EffectiveOp::Deleted) && same_old {
            sources += 1;
        }
        let same_new: bool = content_is(&files[k], &new_bytes);
        if (p.op == EffectiveOp::Renamed || p.op == EffectiveOp::Added) && same_new {
            destinations += 1;
        }
        k += 1;
    }
    assert(ps.len() == plans@.len());
    sources > 1 || destinations > 1
}

/// What a similarity rests on.
#[derive(Clone, Copy, Debug, PartialEq, Eq, Structural)]
pub enum MoveBasis {
    ByteIdentity,
    ContentSimilarity,
}

/// What the similarity of two contents rests on.
pub open spec fn basis_of(a: Seq<u8>, b: Seq<u8>) -> MoveBasis {
    if a == b {
        MoveBasis::ByteIdentity
    } else {
        MoveBasis::ContentSimilarity
    }
}

/// One way in which a rename could be paired.
#[derive(Debug)]
pub struct RenameCandidate {
    pub source: String,
    pub destination: String,
    pub score: u16,
    pub basis: MoveBasis,
}

/// A `RenameCandidate` as a value.
#[verifier::ext_equal]
pub struct CandidateView {
    pub source: Seq<char>,
    pub destination: Seq<char>,
    pub score: nat,
    pub basis: MoveBasis,
}

impl View for RenameCandidate {
    type V = CandidateView;

    open spec fn view(&self) -> CandidateView {
        CandidateView {
            source: self.source@,
            destination: self.destination@,
            score: self.score as nat,
            basis: self.basis,
        }
    }
}

/// The views of a list of candidates.
pub open spec fn candidate_views(v: Seq<RenameCandidate>) -> Seq<CandidateView> {
    v.map_values(|c: RenameCandidate| c@)
}

/// The path that a renamed file had.
pub open spec fn old_path_of(f: commit::ParsedFileView) -> Seq<char> {
    match f.old_path {
        Some(p) => p,
        None => f.path,
    }
}

/// The list with `x` behind it, unless it holds it.
pub open spec fn with_new(list: Seq<Seq<char>>, x: Seq<char>) -> Seq<Seq<char>> {
    if list.contains(x) {
        list
    } else {
        list.push(x)
    }
}

/// The paths among the first `n` files that could have been the source of
/// the rename `i`, the one that Git paired first.
pub open spec fn competing_sources(
    fs: Seq<commit::ParsedFileView>,
    ps: Seq<FilePlanView>,
    i: int,
    n: int,
) -> Seq<Seq<char>>
    decreases n,
{
    if n <= 0 {
        seq![old_path_of(fs[i])]
    } else {
        let head = competing_sources(fs, ps, i, n - 1);
        let k = n - 1;
        if k != i && gives_up(ps[k], ps[i].baseline) {
            with_new(
                head,
                if ps[k].op == EffectiveOp::Renamed {
                    old_path_of(fs[k])
                } else {
                    fs[k].path
                },
            )
        } else {
            head
        }
    }
}

/// The paths among the first `n` files that could have been the destination
/// of the rename `i`, the one that Git paired first.
pub open spec fn competing_destinations(
    fs: Seq<commit::ParsedFileView>,
    ps: Seq<FilePlanView>,
    i: int,
    n: int,
) -> Seq<Seq<char>>
    decreases n,
{
    if n <= 0 {
        seq![fs[i].path]
    } else {
        let head = competing_destinations(fs, ps, i, n - 1);
        let k = n - 1;
        if k != i && brings(fs[k], ps[k], bytes_or_empty(fs[i].new_content)) {
            with_new(head, fs[k].path)
        } else {
            head
        }
    }
}

/// Every pairing of a source with a destination, source by source.
pub open spec fn pairings(
    sources: Seq<Seq<char>>,
    destinations: Seq<Seq<char>>,
    score: nat,
    basis: MoveBasis,
) -> Seq<CandidateView>
    decreases sources.len(),
{
    if sources.len() == 0 {
        seq![]
    } else {
        pairings(sources.drop_last(), destinations, score, basis) + destinations.map_values(
            |d: Seq<char>| CandidateView { source: sources.last(), destination: d, score, basis },
        )
    }
}

/// Every way in which the rename `i` could be paired.
pub open spec fn rename_candidates(
    fs: Seq<commit::ParsedFileView>,
    ps: Seq<FilePlanView>,
    i: int,
) -> Seq<CandidateView> {
    let n = ps.len() as int;
    let new = bytes_or_empty(fs[i].new_content);
    pairings(
        competing_sources(fs, ps, i, n),
        competing_destinations(fs, ps, i, n),
        line_units::similarity(ps[i].baseline, new),
        basis_of(ps[i].baseline, new),
    )
}

/// The path that a file had before.
fn old_path(file: &ParsedFile) -> (r: String)
    ensures
        r@ == old_path_of(file@),
{
    match &file.old_path {
        Some(p) => p.as_str().to_owned(),
        None => file.path.as_str().to_owned(),
    }
}

/// Append `x`, unless the list holds it.
fn push_new(list: &mut Vec<String>, x: &str)
    ensures
        text::texts(final(list)@) == with_new(text::texts(old(list)@), x@),
{
    if !contains_text(list, x) {
        let ghost before = text::texts(list@);
        list.push(x.to_owned());
        assert(text::texts(list@) =~= before.push(x@));
    }
}

/// The sources and the destinations that compete for a rename.
fn competitors(files: &Vec<ParsedFile>, plans: &Vec<FilePlan>, i: usize) -> (r: (
    Vec<String>,
    Vec<String>,
))
    requires
        files@.len() == plans@.len(),
        i < files@.len(),
    ensures
        ({
            let fs = commit::file_views(files@);
            let ps = plan_views(plans@);
            let n = plans@.len() as int;
            &&& text::texts(r.0@) == competing_sources(fs, ps, i as int, n)
            &&& text::texts(r.1@) == competing_destinations(fs, ps, i as int, n)
        }),
{
    let ghost fs = commit::file_views(files@);
    let ghost ps = plan_views(plans@);
    assert(fs[i as int] == files@[i as int]@);
    assert(ps[i as int] == plans@[i as int]@);
    let new_bytes = new_bytes_of(&files[i]);
    let old_bytes = clone_bytes(&plans[i].baseline);
    let mut sources: Vec<String> = Vec::new();
    sources.push(old_path(&files[i]));
    let mut destinations: Vec<String> = Vec::new();
    destinations.push(files[i].path.as_str().to_owned());
    assert(text::texts(sources@) =~= competing_sources(fs, ps, i as int, 0));
    assert(text::texts(destinations@) =~= competing_destinations(fs, ps, i as int, 0));
    let mut k: usize = 0;
    while k < plans.len()
        invariant
            k <= plans@.len(),
            files@.len() == plans@.len(),
            i < files@.len(),
            fs == commit::file_views(files@),
            ps == plan_views(plans@),
            old_bytes@ == ps[i as int].baseline,
            new_bytes@ == bytes_or_empty(fs[i as int].new_content),
            text::texts(sources@) == competing_sources(fs, ps, i as int, k as int),
            text::texts(destinations@) == competing_destinations(fs, ps, i as int, k as int),
        decreases plans@.len() - k,
    {
        assert(ps[k as int] == plans@[k as int]@);
        assert(fs[k as int] == files@[k as int]@);
        let op: EffectiveOp = plans[k].op;
        let same_old: bool = same_bytes(&plans[k].baseline, &old_bytes);
        let same_new: bool = content_is(&files[k], &new_bytes);
        if k != i {
            if (op == EffectiveOp::Renamed || op == EffectiveOp::Deleted) && same_old {
                if op == EffectiveOp::Renamed {
                    push_new(&mut sources, &old_path(&files[k]));
                } else {
                    push_new(&mut sources, &files[k].path);
                }
            }
            if (op == EffectiveOp::Renamed || op == EffectiveOp::Added) && same_new {
                push_new(&mut destinations, &files[k].path);
            }
        }
        k += 1;
    }
    (sources, destinations)
}

/// Pair every source with every destination.
fn pair_all(
    sources: &Vec<String>,
    destinations: &Vec<String>,
    score: u16,
    basis: MoveBasis,
) -> (r: Vec<RenameCandidate>)
    ensures
        candidate_views(r@) == pairings(
            text::texts(sources@),
            text::texts(destinations@),
            score as nat,
            basis,
        ),
{
    let ghost sv = text::texts(sources@);
    let ghost dv = text::texts(destinations@);
    let mut out: Vec<RenameCandidate> = Vec::new();
    let mut i: usize = 0;
    assert(candidate_views(out@) =~= pairings(sv.take(0), dv, score as nat, basis));
    while i < sources.len()
        invariant
            i <= sources@.len(),
            sv == text::texts(sources@),
            dv == text::texts(destinations@),
            candidate_views(out@) == pairings(sv.take(i as int), dv, score as nat, basis),
        decreases sources@.len() - i,
    {
        let ghost base = candidate_views(out@);
        let ghost src = sv[i as int];
        let ghost row = dv.map_values(
            |d: Seq<char>| CandidateView { source: src, destination: d, score: score as nat, basis },
        );
        let mut j: usize = 0;
        assert(candidate_views(out@) =~= base + row.take(0));
        while j < destinations.len()
            invariant
                i < sources@.len(),
                j <= destinations@.len(),
                sv == text::texts(sources@),
                dv == text::texts(destinations@),
                src == sv[i as int],
                row == dv.map_values(
                    |d: Seq<char>|
                        CandidateView { source: src, destination: d, score: score as nat, basis },
                ),
                candidate_views(out@) == base + row.take(j as int),
            decreases destinations@.len() - j,
        {
            let c = RenameCandidate {
                source: sources[i].as_str().to_owned(),
                destination: destinations[j].as_str().to_owned(),
                score,
                basis,
            };
            let ghost before = candidate_views(out@);
            let ghost cv = c@;
            assert(dv[j as int] == destinations@[j as int]@);
            assert(cv == row[j as int]);
            out.push(c);
            assert(candidate_views(out@) =~= before.push(cv));
            assert(candidate_views(out@) =~= base + row.take(j as int + 1));
            j += 1;
        }
        assert(row.take(j as int) =~= row);
        assert(sv.take(i as int + 1).drop_last() =~= sv.take(i as int));
        assert(sv.take(i as int + 1).last() == src);
        assert(row =~= dv.map_values(
            |d: Seq<char>|
                CandidateView {
                    source: sv.take(i as int + 1).last(),
                    destination: d,
                    score: score as nat,
                    basis,
                },
        ));
        i += 1;
    }
    assert(sv.take(i as int) =~= sv);
    out
}

/// What a rename is recorded as.
#[derive(Debug)]
pub enum RenamePlan {
    /// A move of the old path's file, of which the similarity is evidence.
    Move { old_path: String, score: u16, basis: MoveBasis },
    /// An addition, and a deletion of the old path where it is another one,
    /// with every pairing that was possible.
    Replace { deleted: Option<String>, candidates: Vec<RenameCandidate>, content: Option<Vec<u8>> },
}

/// Whether `r` is what the rename `i` is recorded as. It is a move where the
/// new path's directory and the old path's file are known, and the pairing
/// is the only one possible.
pub open spec fn plans_rename(
    r: RenamePlan,
    fs: Seq<commit::ParsedFileView>,
    ps: Seq<FilePlanView>,
    i: int,
    parent_known: bool,
    old_known: bool,
) -> bool {
    let new = bytes_or_empty(fs[i].new_content);
    let old_path = old_path_of(fs[i]);
    match r {
        RenamePlan::Move { old_path: p, score, basis } => {
            &&& parent_known && old_known && !pairing_ambiguous(fs, ps, i)
            &&& p@ == old_path
            &&& score == line_units::similarity(ps[i].baseline, new)
            &&& basis == basis_of(ps[i].baseline, new)
        },
        RenamePlan::Replace { deleted, candidates, content } => {
            &&& !(parent_known && old_known && !pairing_ambiguous(fs, ps, i))
            &&& text::opt_text(deleted) == if old_path != fs[i].path {
                Some(old_path)
            } else {
                None
            }
            &&& candidate_views(candidates@) == if old_path != fs[i].path {
                rename_candidates(fs, ps, i)
            } else {
                seq![]
            }
            &&& graph::opt_bytes(content) == baseline_of(fs[i].new_content, fs[i].old_content)
        },
    }
}

/// Plan what a rename is recorded as.
pub fn plan_rename(
    files: &Vec<ParsedFile>,
    plans: &Vec<FilePlan>,
    i: usize,
    parent_known: bool,
    old_known: bool,
) -> (r: RenamePlan)
    requires
        files@.len() == plans@.len(),
        i < files@.len(),
    ensures
        plans_rename(
            r,
            commit::file_views(files@),
            plan_views(plans@),
            i as int,
            parent_known,
            old_known,
        ),
{
    let ghost fs = commit::file_views(files@);
    let ghost ps = plan_views(plans@);
    assert(fs[i as int] == files@[i as int]@);
    assert(ps[i as int] == plans@[i as int]@);
    let file: &ParsedFile = &files[i];
    let from = old_path(file);
    let new_bytes = new_bytes_of(file);
    let score: u16 = similarity_bps(&plans[i].baseline, &new_bytes);
    let basis = if same_bytes(&plans[i].baseline, &new_bytes) {
        MoveBasis::ByteIdentity
    } else {
        MoveBasis::ContentSimilarity
    };
    if parent_known && old_known && !renamed_pairing_is_ambiguous(files, plans, i) {
        return RenamePlan::Move { old_path: from, score, basis };
    }
    let content: Option<Vec<u8>> = match &file.new_content {
        Some(c) => Some(clone_bytes(c)),
        None => match &file.old_content {
            Some(c) => Some(clone_bytes(c)),
            None => None,
        },
    };
    assert(graph::opt_bytes(content) == baseline_of(fs[i as int].new_content, fs[i as int].old_content));
    if same_text(&from, &file.path) {
        let candidates: Vec<RenameCandidate> = Vec::new();
        assert(candidate_views(candidates@) =~= seq![]);
        RenamePlan::Replace { deleted: None, candidates, content }
    } else {
        let (sources, destinations) = competitors(files, plans, i);
        let candidates = pair_all(&sources, &destinations, score, basis);
        RenamePlan::Replace { deleted: Some(from), candidates, content }
    }
}

/// The paths that are to be registered before anything is recorded: those of
/// the added files, but for submodules and symbolic links.
pub open spec fn paths_to_add(
    fs: Seq<commit::ParsedFileView>,
    ps: Seq<FilePlanView>,
    n: int,
) -> Seq<Seq<char>>
    decreases n,
{
    if n <= 0 {
        seq![]
    } else if ps[n - 1].op == EffectiveOp::Added && fs[n - 1].new_mode != Some(0o160000u32)
        && fs[n - 1].new_mode != Some(0o120000u32) {
        paths_to_add(fs, ps, n - 1).push(fs[n - 1].path)
    } else {
        paths_to_add(fs, ps, n - 1)
    }
}

/// The paths of the deleted files.
pub open spec fn paths_to_delete(
    fs: Seq<commit::ParsedFileView>,
    ps: Seq<FilePlanView>,
    n: int,
) -> Seq<Seq<char>>
    decreases n,
{
    if n <= 0 {
        seq![]
    } else if ps[n - 1].op == EffectiveOp::Deleted {
        paths_to_delete(fs, ps, n - 1).push(fs[n - 1].path)
    } else {
        paths_to_delete(fs, ps, n - 1)
    }
}

/// The paths to register and the paths to forget.
pub fn registered_paths(files: &Vec<ParsedFile>, plans: &Vec<FilePlan>) -> (r: (
    Vec<String>,
    Vec<String>,
))
    requires
        files@.len() == plans@.len(),
    ensures
        ({
            let fs = commit::file_views(files@);
            let ps = plan_views(plans@);
            let n = plans@.len() as int;
            &&& text::texts(r.0@) == paths_to_add(fs, ps, n)
            &&& text::texts(r.1@) == paths_to_delete(fs, ps, n)
        }),
{
    let ghost fs = commit::file_views(files@);
    let ghost ps = plan_views(plans@);
    let mut added: Vec<String> = Vec::new();
    let mut deleted: Vec<String> = Vec::new();
    assert(text::texts(added@) =~= paths_to_add(fs, ps, 0));
    assert(text::texts(deleted@) =~= paths_to_delete(fs, ps, 0));
    let mut k: usize = 0;
    while k < plans.len()
        invariant
            k <= plans@.len(),
            files@.len() == plans@.len(),
            fs == commit::file_views(files@),
            ps == plan_views(plans@),
            text::texts(added@) == paths_to_add(fs, ps, k as int),
            text::texts(deleted@) == paths_to_delete(fs, ps, k as int),
        decreases plans@.len() - k,
    {
        assert(ps[k as int] == plans@[k as int]@);
        assert(fs[k as int] == files@[k as int]@);
        let file: &ParsedFile = &files[k];
        let foreign: bool = match file.new_mode {
            Some(m) => m == 0o160000 || m == 0o120000,
            None => false,
        };
        let ghost a0 = text::texts(added@);
        let ghost d0 = text::texts(deleted@);
        if plans[k].op == EffectiveOp::Added {
            if !foreign {
                added.push(file.path.as_str().to_owned());
                assert(text::texts(added@) =~= a0.push(file.path@));
            }
        } else if plans[k].op == EffectiveOp::Deleted {
            deleted.push(file.path.as_str().to_owned());
            assert(text::texts(deleted@) =~= d0.push(file.path@));
        }
        k += 1;
    }
    (added, deleted)
}

/// The bytes that a file is recorded against: those of the commit's own
/// context while other lineages are excluded, otherwise those that the
/// repository holds, or those of the Git parent's tree.
pub open spec fn recording_baseline(
    leg: bool,
    baseline: Seq<u8>,
    held: Option<Seq<u8>>,
    old_content: Option<Seq<u8>>,
) -> Seq<u8> {
    if leg {
        baseline
    } else {
        bytes_or_empty(baseline_of(held, old_content))
    }
}

/// The bytes that the repository holds for a file, or those of the Git
/// parent's tree.
pub fn old_bytes_for(held: &Option<Vec<u8>>, file: &ParsedFile) -> (r: Vec<u8>)
    ensures
        r@ == bytes_or_empty(baseline_of(graph::opt_bytes(*held), file@.old_content)),
{
    match held {
        Some(b) => clone_bytes(b),
        None => match &file.old_content {
            Some(b) => clone_bytes(b),
            None => {
                let r: Vec<u8> = Vec::new();
                assert(r@ =~= Seq::<u8>::empty());
                r
            },
        },
    }
}

/// The bytes that a planned file is recorded against.
pub fn baseline_for_recording(
    leg: bool,
    plan: &FilePlan,
    held: &Option<Vec<u8>>,
    file: &ParsedFile,
) -> (r: Vec<u8>)
    ensures
        r@ == recording_baseline(leg, plan.baseline@, graph::opt_bytes(*held), file@.old_content),
{
    if leg {
        clone_bytes(&plan.baseline)
    } else {
        old_bytes_for(held, file)
    }
}

/// What comes of the record of a modified file.
#[derive(Clone, Copy, Debug, PartialEq, Eq, Structural)]
pub enum RecordVerdict {
    /// The record is kept, with the attribute writes.
    Keep,
    /// The attribute writes alone are recorded.
    AttributesOnly,
    /// There is nothing to record.
    NoDelta,
}

/// What comes of a record; `None` where it is empty though the bytes differ.
pub open spec fn record_verdict(
    empty: bool,
    attrs: Seq<InodeAttr>,
    before: Seq<u8>,
    after: Seq<u8>,
) -> Option<RecordVerdict> {
    if !empty {
        Some(RecordVerdict::Keep)
    } else if attrs.len() > 0 {
        Some(RecordVerdict::AttributesOnly)
    } else if before == after {
        Some(RecordVerdict::NoDelta)
    } else {
        None
    }
}

/// What kind of file a record is for, as the errors tell of it.
#[derive(Clone, Copy, Debug, PartialEq, Eq, Structural)]
pub enum RecordKind {
    Added,
    Modified,
    Renamed,
}

/// The name of a kind of record.
pub open spec fn record_kind_name(k: RecordKind) -> Seq<char> {
    match k {
        RecordKind::Added => "added"@,
        RecordKind::Modified => "modified"@,
        RecordKind::Renamed => "renamed"@,
    }
}

fn kind_name(k: RecordKind) -> (r: &'static str)
    ensures
        r@ == record_kind_name(k),
{
    match k {
        RecordKind::Added => "added",
        RecordKind::Modified => "modified",
        RecordKind::Renamed => "renamed",
    }
}

/// Why an empty record is refused.
pub open spec fn empty_record_text(kind: RecordKind, path: Seq<char>) -> Seq<char> {
    "cannot record "@ + record_kind_name(kind) + " path '"@ + path + "': record is empty"@
}

/// The error for an empty record.
pub fn empty_record(kind: RecordKind, path: &str) -> (r: CliError)
    ensures
        r.is_internal(empty_record_text(kind, path@)),
{
    let mut m: String = "cannot record ".to_owned();
    m.append(kind_name(kind));
    m.append(" path '");
    m.append(path);
    m.append("': record is empty");
    internal_error(m)
}

/// Judge the record of a modified file.
pub fn judge_record(empty: bool, attrs: &Vec<InodeAttr>, before: &Vec<u8>, after: &Vec<u8>, path: &str) -> (r:
    Result<RecordVerdict, CliError>)
    ensures
        match record_verdict(empty, attrs@, before@, after@) {
            Some(v) => r == Ok::<RecordVerdict, CliError>(v),
            None => r matches Err(e) && e.is_internal(
                empty_record_text(RecordKind::Modified, path@),
            ),
        },
{
    if !empty {
        Ok(RecordVerdict::Keep)
    } else if attrs.len() > 0 {
        Ok(RecordVerdict::AttributesOnly)
    } else if same_bytes(before, after) {
        Ok(RecordVerdict::NoDelta)
    } else {
        Err(empty_record(RecordKind::Modified, path))
    }
}

/// Why a file without bytes is refused.
pub open spec fn omitted_text(sha: Seq<char>, kind: RecordKind, path: Seq<char>) -> Seq<char> {
    "commit "@ + sha + " omitted bytes for "@ + record_kind_name(kind) + " path '"@ + path + "'"@
}

/// The bytes that a commit gives a file.
pub fn required_content(sha: &str, kind: RecordKind, file: &ParsedFile) -> (r: Result<
    Vec<u8>,
    CliError,
>)
    ensures
        match file@.new_content {
            Some(c) => r matches Ok(v) && v@ == c,
            None => r matches Err(e) && e.is_git_error(omitted_text(sha@, kind, file.path@)),
        },
{
    match &file.new_content {
        Some(c) => Ok(clone_bytes(c)),
        None => {
            let mut m: String = "commit ".to_owned();
            m.append(sha);
            m.append(" omitted bytes for ");
            m.append(kind_name(kind));
            m.append(" path '");
            m.append(&file.path);
            m.append("'");
            Err(git_error(m))
        },
    }
}

/// Why the deletion of an ambiguous rename's source is refused.
pub open spec fn empty_deletion_text(path: Seq<char>) -> Seq<char> {
    "cannot import ambiguous rename source '"@ + path + "': canonical FileDel is empty"@
}

/// The error for an empty deletion.
pub fn empty_deletion(path: &str) -> (r: CliError)
    ensures
        r.is_internal(empty_deletion_text(path@)),
{
    let mut m: String = "cannot import ambiguous rename source '".to_owned();
    m.append(path);
    m.append("': canonical FileDel is empty");
    internal_error(m)
}

/// A record, as far as its semantic coverage goes.
#[derive(Debug)]
pub struct RecordSummary {
    pub path: String,
    pub semantic: bool,
}

/// The paths of the first `n` records that carry semantic operations.
pub open spec fn semantic_paths_of(rs: Seq<RecordSummary>, n: int) -> Seq<Seq<char>>
    decreases n,
{
    if n <= 0 {
        seq![]
    } else if rs[n - 1].semantic {
        semantic_paths_of(rs, n - 1).push(rs[n - 1].path@)
    } else {
        semantic_paths_of(rs, n - 1)
    }
}

/// The paths of the records that carry semantic operations.
pub fn semantic_paths(records: &Vec<RecordSummary>) -> (r: Vec<String>)
    ensures
        text::texts(r@) == semantic_paths_of(records@, records@.len() as int),
{
    let mut out: Vec<String> = Vec::new();
    assert(text::texts(out@) =~= semantic_paths_of(records@, 0));
    let mut i: usize = 0;
    while i < records.len()
        invariant
            i <= records@.len(),
            text::texts(out@) == semantic_paths_of(records@, i as int),
        decreases records@.len() - i,
    {
        let ghost before = text::texts(out@);
        if records[i].semantic {
            out.push(records[i].path.as_str().to_owned());
            assert(text::texts(out@) =~= before.push(records@[i as int].path@));
        }
        i += 1;
    }
    out
}

/// What is to be recorded for the first `n` files, or the first failure.
pub open spec fn all_planned(
    fs: Seq<commit::ParsedFileView>,
    seen: Seq<FileObservation>,
    sha: Seq<char>,
    target: Seq<char>,
    n: int,
) -> Result<Seq<FilePlanView>, Failure>
    decreases n,
{
    if n <= 0 {
        Ok(seq![])
    } else {
        match all_planned(fs, seen, sha, target, n - 1) {
            Err(e) => Err(e),
            Ok(ps) => match file_plan(
                fs[n - 1],
                graph::opt_bytes(seen[n - 1].view_baseline),
                seen[n - 1].projected,
                sha,
                target,
            ) {
                Err(e) => Err(e),
                Ok(p) => Ok(ps.push(p)),
            },
        }
    }
}

proof fn lemma_planned_fails(
    fs: Seq<commit::ParsedFileView>,
    seen: Seq<FileObservation>,
    sha: Seq<char>,
    target: Seq<char>,
    m: int,
    n: int,
)
    requires
        0 <= m <= n,
        all_planned(fs, seen, sha, target, m) is Err,
    ensures
        all_planned(fs, seen, sha, target, n) == all_planned(fs, seen, sha, target, m),
    decreases n - m,
{
    if m < n {
        lemma_planned_fails(fs, seen, sha, target, m, n - 1);
    }
}

/// Plan what is to be recorded for the files of a commit, in order; the
/// first file that cannot be planned fails the commit.
pub fn plan_files(
    files: &Vec<ParsedFile>,
    seen: &Vec<FileObservation>,
    sha: &str,
    target: &str,
) -> (r: Result<Vec<FilePlan>, CliError>)
    requires
        files@.len() == seen@.len(),
    ensures
        match all_planned(
            commit::file_views(files@),
            seen@,
            sha@,
            target@,
            files@.len() as int,
        ) {
            Ok(ps) => r matches Ok(v) && plan_views(v@) == ps,
            Err(f) => r matches Err(e) && e.tells(f),
        },
{
    let ghost fs = commit::file_views(files@);
    let mut out: Vec<FilePlan> = Vec::new();
    let mut i: usize = 0;
    assert(plan_views(out@) =~= seq![]);
    while i < files.len()
        invariant
            i <= files@.len(),
            files@.len() == seen@.len(),
            fs == commit::file_views(files@),
            all_planned(fs, seen@, sha@, target@, i as int) matches Ok(ps) && plan_views(out@)
                == ps,
        decreases files@.len() - i,
    {
        assert(fs[i as int] == files@[i as int]@);
        match plan_file(&files[i], &seen[i], sha, target) {
            Ok(p) => {
                let ghost pv = p@;
                let ghost before = plan_views(out@);
                out.push(p);
                assert(plan_views(out@) =~= before.push(pv));
            },
            Err(e) => {
                proof {
                    lemma_planned_fails(
                        fs,
                        seen@,
                        sha@,
                        target@,
                        i as int + 1,
                        files@.len() as int,
                    );
                }
                return Err(e);
            },
        }
        i += 1;
    }
    Ok(out)
}

/// How the bytes that a file lacks are spoken of.
pub open spec fn lacking_kind(op: EffectiveOp) -> RecordKind {
    if op == EffectiveOp::Added {
        RecordKind::Added
    } else {
        RecordKind::Modified
    }
}

/// The kind and mode of a file after some attribute writes.
pub open spec fn with_attributes(km: (InodeKind, u32), attrs: Seq<InodeAttr>) -> (InodeKind, u32)
    decreases attrs.len(),
{
    if attrs.len() == 0 {
        km
    } else {
        let (kind, mode) = with_attributes(km, attrs.drop_last());
        match attrs.last() {
            InodeAttr::Mode(m) => (kind, m),
            InodeAttr::Kind(k) => (k, mode),
        }
    }
}

/// The attribute writes planned for a file lead from what the view projects,
/// or from anything where it projects nothing, to what the commit's mode
/// requires.
pub proof fn attributes_reach_the_commit(
    f: commit::ParsedFileView,
    view: Option<Seq<u8>>,
    observed: Option<ProjectedAttributes>,
    sha: Seq<char>,
    target: Seq<char>,
    before: (InodeKind, u32),
)
    requires
        file_plan(f, view, observed, sha, target) is Ok,
        f.operation != FileOperation::Deleted,
        f.new_mode is Some,
        observed matches Some(p) ==> before == (p.kind, p.mode),
    ensures
        tree::kind_and_mode(f.new_mode->0) == Some(
            with_attributes(before, file_plan(f, view, observed, sha, target)->Ok_0.attrs),
        ),
{
    let attrs = file_plan(f, view, observed, sha, target)->Ok_0.attrs;
    reveal_with_fuel(with_attributes, 3);
    assert(attrs.len() <= 2);
    if attrs.len() == 2 {
        assert(attrs.drop_last().len() == 1);
        assert(attrs.drop_last().drop_last().len() == 0);
        assert(attrs.drop_last().last() == attrs[0]);
    } else if attrs.len() == 1 {
        assert(attrs.drop_last().len() == 0);
    }
}

/// A file that is left out changes nothing: the view already holds what the
/// commit says of it.
pub proof fn skipped_files_change_nothing(
    f: commit::ParsedFileView,
    view: Option<Seq<u8>>,
    observed: Option<ProjectedAttributes>,
    sha: Seq<char>,
    target: Seq<char>,
)
    requires
        file_plan(f, view, observed, sha, target) matches Ok(p) && p.op == EffectiveOp::Skip,
    ensures
        f.operation == FileOperation::Deleted ==> view is None,
        f.operation != FileOperation::Deleted ==> view == Some(bytes_or_empty(f.new_content)) && (
        f.new_mode matches Some(m) ==> (observed matches Some(p) && tree::kind_and_mode(m) == Some(
            (p.kind, p.mode),
        ))),
{
}

proof fn lemma_count_sources(ps: Seq<FilePlanView>, bytes: Seq<u8>, a: int, b: int, n: int)
    requires
        0 <= n <= ps.len(),
    ensures
        0 <= a < n && gives_up(ps[a], bytes) ==> sources_of(ps, bytes, n) >= 1,
        0 <= a < n && 0 <= b < n && a != b && gives_up(ps[a], bytes) && gives_up(ps[b], bytes)
            ==> sources_of(ps, bytes, n) >= 2,
    decreases n,
{
    if n > 0 {
        lemma_count_sources(ps, bytes, a, b, n - 1);
        lemma_count_sources(ps, bytes, b, a, n - 1);
    }
}

proof fn lemma_count_destinations(
    fs: Seq<commit::ParsedFileView>,
    ps: Seq<FilePlanView>,
    bytes: Seq<u8>,
    a: int,
    b: int,
    n: int,
)
    requires
        0 <= n <= ps.len(),
    ensures
        0 <= a < n && brings(fs[a], ps[a], bytes) ==> destinations_of(fs, ps, bytes, n) >= 1,
        0 <= a < n && 0 <= b < n && a != b && brings(fs[a], ps[a], bytes) && brings(
            fs[b],
            ps[b],
            bytes,
        ) ==> destinations_of(fs, ps, bytes, n) >= 2,
    decreases n,
{
    if n > 0 {
        lemma_count_destinations(fs, ps, bytes, a, b, n - 1);
        lemma_count_destinations(fs, ps, bytes, b, a, n - 1);
    }
}

/// A rename is recorded as a move only where no other pairing was possible:
/// no other file of the commit gives up the same bytes, and none brings the
/// same.
pub proof fn moves_are_the_only_pairing(
    r: RenamePlan,
    fs: Seq<commit::ParsedFileView>,
    ps: Seq<FilePlanView>,
    i: int,
    parent_known: bool,
    old_known: bool,
    k: int,
)
    requires
        fs.len() == ps.len(),
        0 <= i < ps.len(),
        0 <= k < ps.len(),
        k != i,
        ps[i].op == EffectiveOp::Renamed,
        fs[i].new_content is Some,
        plans_rename(r, fs, ps, i, parent_known, old_known),
        r is Move,
    ensures
        !gives_up(ps[k], ps[i].baseline),
        !brings(fs[k], ps[k], fs[i].new_content->0),
{
    let n = ps.len() as int;
    lemma_count_sources(ps, ps[i].baseline, i, k, n);
    lemma_count_destinations(fs, ps, fs[i].new_content->0, i, k, n);
}

proof fn lemma_source_kept(
    fs: Seq<commit::ParsedFileView>,
    ps: Seq<FilePlanView>,
    i: int,
    a: int,
    n: int,
)
    requires
        0 <= n <= ps.len(),
    ensures
        competing_sources(fs, ps, i, n).contains(old_path_of(fs[i])),
        0 <= a < n && a != i && gives_up(ps[a], ps[i].baseline) ==> competing_sources(
            fs,
            ps,
            i,
            n,
        ).contains(
            if ps[a].op == EffectiveOp::Renamed {
                old_path_of(fs[a])
            } else {
                fs[a].path
            },
        ),
    decreases n,
{
    let s = competing_sources(fs, ps, i, n);
    if n > 0 {
        lemma_source_kept(fs, ps, i, a, n - 1);
        let head = competing_sources(fs, ps, i, n - 1);
        let k = n - 1;
        let x = if ps[k].op == EffectiveOp::Renamed {
            old_path_of(fs[k])
        } else {
            fs[k].path
        };
        lemma_with_new(head, x);
    } else {
        assert(s[0] == old_path_of(fs[i]));
    }
}

proof fn lemma_with_new(list: Seq<Seq<char>>, x: Seq<char>)
    ensures
        with_new(list, x).contains(x),
        forall|y: Seq<char>| list.contains(y) ==> with_new(list, x).contains(y),
{
    if !list.contains(x) {
        let w = list.push(x);
        assert(w[list.len() as int] == x);
        assert forall|y: Seq<char>| list.contains(y) implies w.contains(y) by {
            let j = choose|j: int| 0 <= j < list.len() && list[j] == y;
            assert(w[j] == y);
        }
    }
}

proof fn lemma_destination_kept(
    fs: Seq<commit::ParsedFileView>,
    ps: Seq<FilePlanView>,
    i: int,
    a: int,
    n: int,
)
    requires
        0 <= n <= ps.len(),
    ensures
        competing_destinations(fs, ps, i, n).contains(fs[i].path),
        0 <= a < n && a != i && brings(fs[a], ps[a], bytes_or_empty(fs[i].new_content))
            ==> competing_destinations(fs, ps, i, n).contains(fs[a].path),
    decreases n,
{
    let s = competing_destinations(fs, ps, i, n);
    if n > 0 {
        lemma_destination_kept(fs, ps, i, a, n - 1);
        lemma_with_new(competing_destinations(fs, ps, i, n - 1), fs[n - 1].path);
    } else {
        assert(s[0] == fs[i].path);
    }
}

proof fn lemma_pairings(
    ss: Seq<Seq<char>>,
    ds: Seq<Seq<char>>,
    score: nat,
    basis: MoveBasis,
    s: Seq<char>,
    d: Seq<char>,
)
    requires
        ss.contains(s),
        ds.contains(d),
    ensures
        pairings(ss, ds, score, basis).contains(
            CandidateView { source: s, destination: d, score, basis },
        ),
    decreases ss.len(),
{
    let c = CandidateView { source: s, destination: d, score, basis };
    let head = pairings(ss.drop_last(), ds, score, basis);
    let row = ds.map_values(
        |d: Seq<char>| CandidateView { source: ss.last(), destination: d, score, basis },
    );
    assert(pairings(ss, ds, score, basis) == head + row);
    if ss.last() == s {
        let j = choose|j: int| 0 <= j < ds.len() && ds[j] == d;
        assert(row[j] == c);
        assert((head + row)[head.len() + j] == c);
    } else {
        let j = choose|j: int| 0 <= j < ss.len() && ss[j] == s;
        assert(ss.drop_last()[j] == s);
        lemma_pairings(ss.drop_last(), ds, score, basis, s, d);
        let m = choose|m: int| 0 <= m < head.len() && head[m] == c;
        assert((head + row)[m] == c);
    }
}

/// The candidates of a rename that is not recorded as a move name every
/// pairing that was possible: every file that gives up the same bytes, or
/// the one that Git paired, with every file that brings the same bytes, or
/// the one that Git paired.
pub proof fn candidates_name_every_alternative(
    fs: Seq<commit::ParsedFileView>,
    ps: Seq<FilePlanView>,
    i: int,
    a: int,
    b: int,
)
    requires
        fs.len() == ps.len(),
        0 <= i < ps.len(),
        0 <= a < ps.len(),
        0 <= b < ps.len(),
        ps[i].op == EffectiveOp::Renamed,
        a == i || gives_up(ps[a], ps[i].baseline),
        b == i || brings(fs[b], ps[b], bytes_or_empty(fs[i].new_content)),
    ensures
        rename_candidates(fs, ps, i).contains(
            CandidateView {
                source: if ps[a].op == EffectiveOp::Renamed {
                    old_path_of(fs[a])
                } else {
                    fs[a].path
                },
                destination: fs[b].path,
                score: line_units::similarity(
                    ps[i].baseline,
                    bytes_or_empty(fs[i].new_content),
                ),
                basis: basis_of(ps[i].baseline, bytes_or_empty(fs[i].new_content)),
            },
        ),
{
    let n = ps.len() as int;
    let new = bytes_or_empty(fs[i].new_content);
    let s = if ps[a].op == EffectiveOp::Renamed {
        old_path_of(fs[a])
    } else {
        fs[a].path
    };
    lemma_source_kept(fs, ps, i, a, n);
    lemma_destination_kept(fs, ps, i, b, n);
    lemma_pairings(
        competing_sources(fs, ps, i, n),
        competing_destinations(fs, ps, i, n),
        line_units::similarity(ps[i].baseline, new),
        basis_of(ps[i].baseline, new),
        s,
        fs[b].path,
    );
}

/// A plan fits what the view holds: a file is added only where there is none,
/// deleted only where the commit deletes it and something is there, and
/// otherwise changed; what Git had before is what it is recorded against.
pub proof fn a_plan_fits_the_view(
    f: commit::ParsedFileView,
    view: Option<Seq<u8>>,
    observed: Option<ProjectedAttributes>,
    sha: Seq<char>,
    target: Seq<char>,
)
    requires
        file_plan(f, view, observed, sha, target) is Ok,
    ensures
        ({
            let p = file_plan(f, view, observed, sha, target)->Ok_0;
            &&& p.op == EffectiveOp::Added ==> view is None && graph_first_adds(f)
            &&& p.op == EffectiveOp::Deleted ==> f.operation == FileOperation::Deleted
            &&& p.op == EffectiveOp::Renamed <==> f.operation == FileOperation::Renamed
            &&& f.operation == FileOperation::Deleted && view is Some ==> p.op
                == EffectiveOp::Deleted
            &&& graph_first_adds(f) && view is Some && view->0 != bytes_or_empty(f.new_content)
                ==> p.op == EffectiveOp::Modified || p.op == EffectiveOp::ModifiedFullReplace
            &&& f.old_content is Some ==> p.baseline == f.old_content->0
            &&& f.old_content is None && view is Some ==> p.baseline == view->0
        }),
{
}

/// Whether a commit brings a file that its parent does not have.
pub open spec fn graph_first_adds(f: commit::ParsedFileView) -> bool {
    f.operation == FileOperation::Added || f.operation == FileOperation::Copied
}

/// Attributes are written only where they differ: none is written that is
/// already so, and no more than one of each.
pub proof fn attributes_are_written_where_they_differ(
    kind: InodeKind,
    mode: u32,
    projected: ProjectedAttributes,
)
    ensures
        ({
            let attrs = attribute_delta(Some((kind, mode)), Some(projected));
            &&& attrs.contains(InodeAttr::Mode(mode)) <==> projected.mode != mode
            &&& attrs.contains(InodeAttr::Kind(kind)) <==> projected.kind != kind
            &&& attrs.no_duplicates()
            &&& forall|i: int|
                0 <= i < attrs.len() ==> #[trigger] attrs[i] == InodeAttr::Mode(mode) || attrs[i]
                    == InodeAttr::Kind(kind)
        }),
{
    let attrs = attribute_delta(Some((kind, mode)), Some(projected));
    if projected.mode != mode {
        assert(attrs[0] == InodeAttr::Mode(mode));
        if projected.kind != kind {
            assert(attrs[1] == InodeAttr::Kind(kind));
        }
    } else if projected.kind != kind {
        assert(attrs[0] == InodeAttr::Kind(kind));
    }
}

/// What is registered and what is deleted is what was planned: the paths of
/// the added files but for links, and the paths of the deleted ones.
pub proof fn planned_paths_are_registered(
    fs: Seq<commit::ParsedFileView>,
    ps: Seq<FilePlanView>,
    n: int,
    path: Seq<char>,
)
    requires
        fs.len() == ps.len(),
        0 <= n <= ps.len(),
    ensures
        paths_to_add(fs, ps, n).contains(path) <==> exists|i: int|
            0 <= i < n && (#[trigger] fs[i]).path == path && ps[i].op == EffectiveOp::Added
                && fs[i].new_mode != Some(0o160000u32) && fs[i].new_mode != Some(0o120000u32),
        paths_to_delete(fs, ps, n).contains(path) <==> exists|i: int|
            0 <= i < n && (#[trigger] fs[i]).path == path && ps[i].op == EffectiveOp::Deleted,
    decreases n,
{
    if n > 0 {
        planned_paths_are_registered(fs, ps, n - 1, path);
        lemma_pushed_path(paths_to_add(fs, ps, n - 1), fs[n - 1].path, path);
        lemma_pushed_path(paths_to_delete(fs, ps, n - 1), fs[n - 1].path, path);
        assert(fs[n - 1].path == fs[n - 1].path);
    } else {
        assert(paths_to_add(fs, ps, n).len() == 0);
        assert(paths_to_delete(fs, ps, n).len() == 0);
    }
}

proof fn lemma_pushed_path(list: Seq<Seq<char>>, x: Seq<char>, path: Seq<char>)
    ensures
        list.push(x).contains(path) <==> list.contains(path) || x == path,
{
    let p = list.push(x);
    if p.contains(path) {
        let j = choose|j: int| 0 <= j < p.len() && p[j] == path;
        if j < list.len() {
            assert(list[j] == path);
        }
    }
    if list.contains(path) {
        let j = choose|j: int| 0 <= j < list.len() && list[j] == path;
        assert(p[j] == path);
    }
    assert(p[list.len() as int] == x);
}

} // verus!
