//! The shadow-publication pipeline: what a view's projection is verified
//! against, which paths may never be published, where the projection lands
//! and how a failed one is taken back.
use crate::error::{git_error, CliError};
use crate::publish_run;
use crate::push;
use crate::push::GitHashAlgorithm;
use crate::ref_mapping;
use crate::ref_mapping::{RefMapping, ViewScope};
use crate::text;
use crate::text::{
    chars_of, join, lines, same_text, starts_with, strip_prefix, to_decimal,
    to_lower, trim,
};
use vstd::prelude::*;

verus! {

/// How conflict markers are handled at the publication boundary.
#[derive(Clone, Copy, Debug, PartialEq, Eq, Structural)]
pub enum ConflictMarkerPolicy {
    Refuse,
    AllowExplicitly,
}

/// The marker policy of a push.
pub fn marker_policy(allow_conflict_markers: bool) -> (r: ConflictMarkerPolicy)
    ensures
        r == (if allow_conflict_markers {
            ConflictMarkerPolicy::AllowExplicitly
        } else {
            ConflictMarkerPolicy::Refuse
        }),
{
    if allow_conflict_markers {
        ConflictMarkerPolicy::AllowExplicitly
    } else {
        ConflictMarkerPolicy::Refuse
    }
}

/// Paths that may never enter a shadow commit.
pub open spec fn forbidden_path(path: Seq<char>) -> bool {
    ||| path == ".atomicignore"@
    ||| text::has_prefix(path, ".atomic/"@)
    ||| text::has_prefix(path, ".vault/"@)
}

/// Whether `path` is a Git-excluded shadow or provenance path, which no
/// shadow commit may hold.
pub fn is_forbidden_shadow_path(path: &str) -> (r: bool)
    ensures
        r == forbidden_path(path@),
{
    same_text(path, ".atomicignore") || starts_with(path, ".atomic/") || starts_with(
        path,
        ".vault/",
    )
}

/// The first forbidden one of `paths`.
pub open spec fn first_forbidden(paths: Seq<Seq<char>>) -> Option<Seq<char>>
    decreases paths.len(),
{
    if paths.len() == 0 {
        None
    } else if forbidden_path(paths[0]) {
        Some(paths[0])
    } else {
        first_forbidden(paths.drop_first())
    }
}

/// The first staged path that may not enter a shadow commit.
pub fn first_forbidden_shadow_path(paths: &Vec<String>) -> (r: Option<String>)
    ensures
        text::opt_text(r) == first_forbidden(text::texts(paths@)),
{
    let ghost all = text::texts(paths@);
    let mut i: usize = 0;
    assert(all.skip(0) =~= all);
    while i < paths.len()
        invariant
            i <= paths@.len(),
            all == text::texts(paths@),
            first_forbidden(all.skip(i as int)) == first_forbidden(all),
        decreases paths@.len() - i,
    {
        assert(all.skip(i as int)[0] == paths@[i as int]@);
        assert(all.skip(i as int).drop_first() =~= all.skip(i as int + 1));
        if is_forbidden_shadow_path(&paths[i]) {
            return Some(paths[i].clone());
        }
        i += 1;
    }
    None
}

/// A candidate passes exactly when it holds no forbidden path at all.
pub proof fn clean_candidate_has_no_forbidden_path(paths: Seq<Seq<char>>)
    ensures
        first_forbidden(paths) is None <==> forall|i: int|
            0 <= i < paths.len() ==> !forbidden_path(#[trigger] paths[i]),
    decreases paths.len(),
{
    if paths.len() > 0 {
        clean_candidate_has_no_forbidden_path(paths.drop_first());
        if first_forbidden(paths) is None {
            assert forall|i: int| 0 <= i < paths.len() implies !forbidden_path(
                #[trigger] paths[i],
            ) by {
                if i > 0 {
                    assert(paths.drop_first()[i - 1] == paths[i]);
                }
            }
        }
        if forall|i: int| 0 <= i < paths.len() ==> !forbidden_path(#[trigger] paths[i]) {
            assert forall|i: int| 0 <= i < paths.drop_first().len() implies !forbidden_path(
                #[trigger] paths.drop_first()[i],
            ) by {
                assert(paths.drop_first()[i] == paths[i + 1]);
            }
        }
    }
}

/// The refusal of a forbidden path.
pub open spec fn forbidden_message(path: Seq<char>) -> Seq<char> {
    "'"@ + path
        + "' is a git-excluded Atomic shadow path (.atomic/, .vault/, .atomicignore) and must never be committed to git. Aborting; no commit was created and the index was restored. Ensure `.git/info/exclude` carries the Atomic shadow patterns."@
}

/// The first conflict marker that was found: its file and line.
#[derive(Debug)]
pub struct ConflictMarker {
    pub path: String,
    pub line: u64,
}

/// The refusal of a conflict marker.
pub open spec fn marker_message(path: Seq<char>, line: nat) -> Seq<char> {
    "'"@ + path + "' still contains conflict markers at line "@ + text::decimal(line)
        + " — resolve the conflict (remove the >>>>>>> / ======= / <<<<<<< lines), or pass --allow-conflict-markers to override. No commit was created."@
}

/// Refuse unresolved conflict markers, in the working copy or else in the
/// recorded content of the view.
pub fn refuse_conflict_markers(
    working_copy: Option<&ConflictMarker>,
    recorded: Option<&ConflictMarker>,
) -> (r: Result<(), CliError>)
    ensures
        match working_copy {
            Some(m) => r matches Err(e) && e.is_git_error(marker_message(m.path@, m.line as nat)),
            None => match recorded {
                Some(m) => r matches Err(e) && e.is_git_error(
                    marker_message(m.path@, m.line as nat),
                ),
                None => r is Ok,
            },
        },
{
    let found: Option<&ConflictMarker> = match working_copy {
        Some(m) => Some(m),
        None => recorded,
    };
    match found {
        None => Ok(()),
        Some(m) => {
            let mut s: String = "'".to_owned();
            s.append(&m.path);
            s.append("' still contains conflict markers at line ");
            s.append(&to_decimal(m.line));
            s.append(
                " — resolve the conflict (remove the >>>>>>> / ======= / <<<<<<< lines), or pass --allow-conflict-markers to override. No commit was created.",
            );
            Err(git_error(s))
        },
    }
}

/// Validate what is about to become a shadow commit: no unresolved marker
/// unless explicitly allowed, and no forbidden path among the staged ones.
/// The verified tree is what becomes the commit's.
pub fn stage_and_validate_tree(
    publication: &PublicationEvidence,
    policy: ConflictMarkerPolicy,
    working_copy: Option<&ConflictMarker>,
    recorded: Option<&ConflictMarker>,
    staged: &Vec<String>,
) -> (r: Result<String, CliError>)
    ensures
        ({
            let marker = if policy == ConflictMarkerPolicy::Refuse {
                match working_copy {
                    Some(m) => Some(m),
                    None => recorded,
                }
            } else {
                None
            };
            match marker {
                Some(m) => r matches Err(e) && e.is_git_error(
                    marker_message(m.path@, m.line as nat),
                ),
                None => match first_forbidden(text::texts(staged@)) {
                    Some(p) => r matches Err(e) && e.is_git_error(forbidden_message(p)),
                    None => match publication.algorithm {
                        GitHashAlgorithm::Sha1 => r matches Ok(t) && t@ == publication.git_tree@,
                        GitHashAlgorithm::Sha256 => r matches Err(e) && e.is_git_error(
                            unsupported_tree_message(),
                        ),
                    },
                },
            }
        }),
{
    if policy == ConflictMarkerPolicy::Refuse {
        refuse_conflict_markers(working_copy, recorded)?;
    }
    match first_forbidden_shadow_path(staged) {
        Some(bad) => {
            let mut s: String = "'".to_owned();
            s.append(&bad);
            s.append(
                "' is a git-excluded Atomic shadow path (.atomic/, .vault/, .atomicignore) and must never be committed to git. Aborting; no commit was created and the index was restored. Ensure `.git/info/exclude` carries the Atomic shadow patterns.",
            );
            Err(git_error(s))
        },
        None => publication.git_tree_oid(),
    }
}

/// The object algorithm that the configured `extensions.objectFormat` names;
/// SHA-1 where it is not set.
pub open spec fn object_format_of(value: Option<Seq<char>>) -> Option<GitHashAlgorithm> {
    match value {
        None => Some(GitHashAlgorithm::Sha1),
        Some(v) => if text::lowered(v) == "sha1"@ {
            Some(GitHashAlgorithm::Sha1)
        } else if text::lowered(v) == "sha256"@ {
            Some(GitHashAlgorithm::Sha256)
        } else {
            None
        },
    }
}

/// The object algorithm of a repository, from its configuration.
pub fn object_format(value: Option<&str>) -> (r: Result<GitHashAlgorithm, CliError>)
    ensures
        match object_format_of(text::opt_str(value)) {
            Some(a) => r == Ok::<GitHashAlgorithm, CliError>(a),
            None => r matches Err(e) && e.is_git_error(
                "unsupported Git object algorithm '"@ + value->0@ + "'"@,
            ),
        },
{
    match value {
        None => Ok(GitHashAlgorithm::Sha1),
        Some(v) => {
            let l = to_lower(v);
            if same_text(&l, "sha1") {
                Ok(GitHashAlgorithm::Sha1)
            } else if same_text(&l, "sha256") {
                Ok(GitHashAlgorithm::Sha256)
            } else {
                let mut m: String = "unsupported Git object algorithm '".to_owned();
                m.append(v);
                m.append("'");
                Err(git_error(m))
            }
        },
    }
}

/// What the platform can represent.
#[derive(Clone, Copy, Debug, PartialEq, Eq, Structural)]
pub struct PlatformPolicy {
    pub executable_bit: bool,
    pub symlinks: bool,
    pub case_sensitive: bool,
    pub unicode_normalizing: bool,
}

/// A setting, or its default.
pub open spec fn setting(value: Option<bool>, default: bool) -> bool {
    match value {
        Some(b) => b,
        None => default,
    }
}

/// What the platform can represent, from the repository configuration:
/// `unix` decides where file modes and symbolic links are not configured.
pub fn platform_policy(
    filemode: Option<bool>,
    symlinks: Option<bool>,
    ignorecase: Option<bool>,
    precompose: Option<bool>,
    unix: bool,
) -> (r: PlatformPolicy)
    ensures
        r == (PlatformPolicy {
            executable_bit: setting(filemode, unix),
            symlinks: setting(symlinks, unix),
            case_sensitive: !setting(ignorecase, false),
            unicode_normalizing: setting(precompose, false),
        }),
{
    PlatformPolicy {
        executable_bit: match filemode {
            Some(b) => b,
            None => unix,
        },
        symlinks: match symlinks {
            Some(b) => b,
            None => unix,
        },
        case_sensitive: match ignorecase {
            Some(b) => !b,
            None => true,
        },
        unicode_normalizing: match precompose {
            Some(b) => b,
            None => false,
        },
    }
}

/// A truth value as the policy record writes it.
pub open spec fn bool_text(b: bool) -> Seq<char> {
    if b {
        "true"@
    } else {
        "false"@
    }
}

fn bool_word(b: bool) -> (r: &'static str)
    ensures
        r@ == bool_text(b),
{
    if b {
        "true"
    } else {
        "false"
    }
}

/// The record of the configuration that a conversion policy depends on.
pub open spec fn config_record(
    algorithm: GitHashAlgorithm,
    p: PlatformPolicy,
    timeout_ms: nat,
    max_output: nat,
) -> Seq<char> {
    "object="@ + (match algorithm {
        GitHashAlgorithm::Sha1 => "Sha1"@,
        GitHashAlgorithm::Sha256 => "Sha256"@,
    }) + "\nfilemode="@ + bool_text(p.executable_bit) + "\nsymlinks="@ + bool_text(p.symlinks)
        + "\nignorecase="@ + bool_text(!p.case_sensitive) + "\nprecomposeunicode="@ + bool_text(
        p.unicode_normalizing,
    ) + "\ntimeout="@ + text::decimal(timeout_ms) + "\nmax-output="@ + text::decimal(max_output)
        + "\n"@
}

/// The record of the configuration that a conversion policy depends on; its
/// hash is part of the policy root.
pub fn relevant_config(
    algorithm: GitHashAlgorithm,
    p: PlatformPolicy,
    timeout_ms: u64,
    max_output: u64,
) -> (r: String)
    ensures
        r@ == config_record(algorithm, p, timeout_ms as nat, max_output as nat),
{
    let mut m: String = "object=".to_owned();
    m.append(
        match algorithm {
            GitHashAlgorithm::Sha1 => "Sha1",
            GitHashAlgorithm::Sha256 => "Sha256",
        },
    );
    m.append("\nfilemode=");
    m.append(bool_word(p.executable_bit));
    m.append("\nsymlinks=");
    m.append(bool_word(p.symlinks));
    m.append("\nignorecase=");
    m.append(bool_word(!p.case_sensitive));
    m.append("\nprecomposeunicode=");
    m.append(bool_word(p.unicode_normalizing));
    m.append("\ntimeout=");
    m.append(&to_decimal(timeout_ms));
    m.append("\nmax-output=");
    m.append(&to_decimal(max_output));
    m.append("\n");
    m
}

/// The record of one filter driver.
pub open spec fn driver_record(
    name: Seq<char>,
    clean: Option<Seq<char>>,
    smudge: Option<Seq<char>>,
    required: bool,
) -> Seq<char> {
    name + "\0"@ + (match clean {
        Some(c) => c,
        None => ""@,
    }) + "\0"@ + (match smudge {
        Some(s) => s,
        None => ""@,
    }) + "\0"@ + bool_text(required)
}

/// The record of one filter driver; its hash versions the driver.
pub fn filter_driver_record(
    name: &str,
    clean: Option<&str>,
    smudge: Option<&str>,
    required: bool,
) -> (r: String)
    ensures
        r@ == driver_record(name@, text::opt_str(clean), text::opt_str(smudge), required),
{
    let mut m: String = name.to_owned();
    m.append("\0");
    match clean {
        Some(c) => m.append(c),
        None => m.append(""),
    }
    m.append("\0");
    match smudge {
        Some(s) => m.append(s),
        None => m.append(""),
    }
    m.append("\0");
    m.append(bool_word(required));
    m
}

/// One difference between the layers of a publication.
#[derive(Debug)]
pub struct Mismatch {
    pub layer: String,
    pub kind: String,
    pub path: Option<String>,
    pub expected: String,
    pub actual: String,
}

/// One difference, as the refusal names it.
pub open spec fn mismatch_text(m: Mismatch) -> Seq<char> {
    m.layer@ + "/"@ + m.kind@ + (match m.path {
        Some(p) => " at '"@ + p@ + "'"@,
        None => ""@,
    }) + ": expected "@ + m.expected@ + ", observed "@ + m.actual@
}

/// The first differences, as the refusal names them.
pub open spec fn mismatch_texts(ms: Seq<Mismatch>) -> Seq<Seq<char>> {
    ms.map_values(|m: Mismatch| mismatch_text(m))
}

/// How many differences a refusal names.
pub open spec fn shown_mismatches(n: nat) -> int {
    if n < 8 {
        n as int
    } else {
        8
    }
}

fn mismatch_line(m: &Mismatch) -> (r: String)
    ensures
        r@ == mismatch_text(*m),
{
    let mut s: String = m.layer.clone();
    s.append("/");
    s.append(&m.kind);
    let mut at: String = "".to_owned();
    match &m.path {
        Some(p) => {
            at = " at '".to_owned();
            at.append(p);
            at.append("'");
        },
        None => {},
    }
    s.append(&at);
    s.append(": expected ");
    s.append(&m.expected);
    s.append(", observed ");
    s.append(&m.actual);
    s
}

/// Accept a publication only when its layers are equivalent; else name the
/// first differences.
pub fn require_equivalence(view: &str, mismatches: &Vec<Mismatch>) -> (r: Result<(), CliError>)
    ensures
        if mismatches@.len() == 0 {
            r is Ok
        } else {
            r matches Err(e) && e.is_git_error(
                "CB-4B publication equivalence failed for view '"@ + view@ + "': "@ + text::joined(
                    mismatch_texts(mismatches@.take(shown_mismatches(mismatches@.len()))),
                    "; "@,
                ) + ". No publication mutation was attempted"@,
            )
        },
{
    if mismatches.len() == 0 {
        return Ok(());
    }
    let n: usize = if mismatches.len() < 8 {
        mismatches.len()
    } else {
        8
    };
    let mut parts: Vec<String> = Vec::new();
    let mut i: usize = 0;
    let ghost shown = mismatch_texts(mismatches@.take(n as int));
    assert(text::texts(parts@) =~= shown.take(0));
    while i < n
        invariant
            i <= n <= mismatches@.len(),
            shown == mismatch_texts(mismatches@.take(n as int)),
            text::texts(parts@) == shown.take(i as int),
        decreases n - i,
    {
        let ghost before = text::texts(parts@);
        parts.push(mismatch_line(&mismatches[i]));
        assert(text::texts(parts@) =~= before.push(mismatch_text(mismatches@[i as int])));
        assert(text::texts(parts@) =~= shown.take(i as int + 1));
        i += 1;
    }
    assert(shown.take(n as int) =~= shown);
    let mut m: String = "CB-4B publication equivalence failed for view '".to_owned();
    m.append(view);
    m.append("': ");
    m.append(&join(&parts, "; "));
    m.append(". No publication mutation was attempted");
    Err(git_error(m))
}

/// The evidence of a verified publication: what was observed under one
/// conversion policy.
#[derive(Debug)]
pub struct PublicationEvidence {
    pub view: String,
    pub policy_root: String,
    pub atomic_state: String,
    pub manifest_root: String,
    pub index_root: String,
    pub worktree_root: String,
    pub git_tree: String,
    /// The hash algorithm of the tree's id.
    pub algorithm: GitHashAlgorithm,
    pub git_head: Option<String>,
}

/// Whether two observations agree on every lease but the current commit.
pub open spec fn same_leases(a: PublicationEvidence, b: PublicationEvidence) -> bool {
    &&& a.policy_root@ == b.policy_root@
    &&& a.atomic_state@ == b.atomic_state@
    &&& a.manifest_root@ == b.manifest_root@
    &&& a.index_root@ == b.index_root@
    &&& a.worktree_root@ == b.worktree_root@
    &&& a.git_tree@ == b.git_tree@
    &&& a.algorithm == b.algorithm
}

/// The refusal of a tree that libgit2 has no id for.
pub open spec fn unsupported_tree_message() -> Seq<char> {
    "Git publication through libgit2 does not support Sha256 repositories"@
}

/// The refusal of a stale publication.
pub open spec fn stale_publication_message() -> Seq<char> {
    "publication state changed after equivalence verification; retry from fresh observations"@
}

impl PublicationEvidence {
    /// The id of the verified tree, as libgit2 takes it: a SHA-1 id.
    pub fn git_tree_oid(&self) -> (r: Result<String, CliError>)
        ensures
            match self.algorithm {
                GitHashAlgorithm::Sha1 => r matches Ok(t) && t@ == self.git_tree@,
                GitHashAlgorithm::Sha256 => r matches Err(e) && e.is_git_error(
                    unsupported_tree_message(),
                ),
            },
    {
        match self.algorithm {
            GitHashAlgorithm::Sha1 => Ok(self.git_tree.as_str().to_owned()),
            GitHashAlgorithm::Sha256 => Err(
                git_error(
                    "Git publication through libgit2 does not support Sha256 repositories".to_owned(),
                ),
            ),
        }
    }

    /// Accept a fresh observation only when nothing that was verified has
    /// changed: not the policy, the state, the manifest, the index, the
    /// worktree or the tree.
    pub fn reobserve(&self, current: &PublicationEvidence) -> (r: Result<(), CliError>)
        ensures
            if same_leases(*current, *self) {
                r is Ok
            } else {
                r matches Err(e) && e.is_git_error(stale_publication_message())
            },
    {
        if !same_text(&current.policy_root, &self.policy_root) || !same_text(
            &current.atomic_state,
            &self.atomic_state,
        ) || !same_text(&current.manifest_root, &self.manifest_root) || !same_text(
            &current.index_root,
            &self.index_root,
        ) || !same_text(&current.worktree_root, &self.worktree_root) || !same_text(
            &current.git_tree,
            &self.git_tree,
        ) || current.algorithm != self.algorithm {
            return Err(
                git_error(
                    "publication state changed after equivalence verification; retry from fresh observations".to_owned(),
                ),
            );
        }
        Ok(())
    }

    /// Whether the current commit is still the one that was observed.
    pub fn head_is(&self, observed: Option<&str>) -> (r: bool)
        ensures
            r == (text::opt_str(observed) == text::opt_text(self.git_head)),
    {
        match (&self.git_head, observed) {
            (Some(a), Some(b)) => same_text(a, b),
            (None, None) => true,
            _ => false,
        }
    }

    /// Accept the current commit for a push: it is the verified one and has
    /// the verified tree.
    pub fn reobserve_for_git_push(&self, head: &str, head_tree: &str) -> (r: Result<(), CliError>)
        ensures
            match self.git_head {
                None => r matches Err(e) && e.is_git_error(
                    "cannot publish an unborn Git HEAD"@,
                ),
                Some(expected) => if self.algorithm == GitHashAlgorithm::Sha256 {
                    r matches Err(e) && e.is_git_error(unsupported_tree_message())
                } else if head@ == expected@ && head_tree@ == self.git_tree@ {
                    r is Ok
                } else {
                    r matches Err(e) && e.is_git_error(
                        "Git HEAD lease changed before push: expected commit "@ + expected@
                            + " with tree "@ + self.git_tree@ + ", found commit "@ + head@
                            + " with tree "@ + head_tree@,
                    )
                },
            },
    {
        match &self.git_head {
            None => Err(git_error("cannot publish an unborn Git HEAD".to_owned())),
            Some(expected) => {
                let tree = self.git_tree_oid()?;
                if same_text(head, expected) && same_text(head_tree, &tree) {
                    return Ok(());
                }
                let mut m: String = "Git HEAD lease changed before push: expected commit ".to_owned();
                m.append(expected);
                m.append(" with tree ");
                m.append(&tree);
                m.append(", found commit ");
                m.append(head);
                m.append(" with tree ");
                m.append(head_tree);
                Err(git_error(m))
            },
        }
    }

    /// Bind the publication to the commit that was just created: it has the
    /// verified tree and is the current commit.
    pub fn bind_committed_head(
        &mut self,
        commit: &str,
        commit_tree: &str,
        observed_head: Option<&str>,
    ) -> (r: Result<(), CliError>)
        ensures
            *final(self) == (PublicationEvidence { git_head: final(self).git_head, ..*old(self) }),
            r is Err ==> *final(self) == *old(self),
            if old(self).algorithm == GitHashAlgorithm::Sha256 {
                r matches Err(e) && e.is_git_error(unsupported_tree_message())
            } else if commit_tree@ != old(self).git_tree@ {
                r matches Err(e) && e.is_git_error(
                    "refusing to bind a Git commit whose tree differs from the verified project tree"@,
                )
            } else if observed_head is None {
                r matches Err(e) && e.is_git_error(
                    "cannot bind publication to an unborn or symbolic-only HEAD"@,
                )
            } else if observed_head->0@ != commit@ {
                r matches Err(e) && e.is_git_error(
                    "Git HEAD changed while binding publication: expected "@ + commit@ + ", found "@
                        + observed_head->0@,
                )
            } else {
                &&& r is Ok
                &&& text::opt_text(final(self).git_head) == Some(commit@)
            },
    {
        let tree = self.git_tree_oid()?;
        if !same_text(commit_tree, &tree) {
            return Err(
                git_error(
                    "refusing to bind a Git commit whose tree differs from the verified project tree".to_owned(),
                ),
            );
        }
        match observed_head {
            None => Err(
                git_error("cannot bind publication to an unborn or symbolic-only HEAD".to_owned()),
            ),
            Some(observed) => {
                if !same_text(observed, commit) {
                    let mut m: String = "Git HEAD changed while binding publication: expected ".to_owned();
                    m.append(commit);
                    m.append(", found ");
                    m.append(observed);
                    return Err(git_error(m));
                }
                self.git_head = Some(commit.to_owned());
                Ok(())
            },
        }
    }
}

/// Whether the shadow is established: the repository excludes the change
/// store.
pub fn shadow_sync_active(exclude: Option<&str>) -> (r: bool)
    ensures
        r == (exclude is Some && exists|i: int|
            0 <= i < text::lines_of(exclude->0@).len() && text::trimmed(
                #[trigger] text::lines_of(exclude->0@)[i],
            ) == "/.atomic/"@),
{
    match exclude {
        None => false,
        Some(content) => {
            let ls = lines(content);
            let ghost all = text::texts(ls@);
            let mut i: usize = 0;
            while i < ls.len()
                invariant
                    i <= ls@.len(),
                    all == text::texts(ls@),
                    exclude == Some(content),
                    all == text::lines_of(content@),
                    forall|k: int| 0 <= k < i ==> text::trimmed(#[trigger] all[k])
                        != "/.atomic/"@,
                decreases ls@.len() - i,
            {
                assert(all[i as int] == ls@[i as int]@);
                let t = trim(&ls[i]);
                if same_text(&t, "/.atomic/") {
                    assert(text::trimmed(text::lines_of(exclude->0@)[i as int]) == "/.atomic/"@);
                    return true;
                }
                i += 1;
            }
            false
        },
    }
}

/// How a view's persisted conflict state projects.
#[derive(Clone, Copy, Debug, PartialEq, Eq, Structural)]
pub enum ConflictExport {
    /// No persisted conflict: the ordinary projection.
    Clean,
    /// The conflicts project as marker bytes.
    Snapshot,
}

/// The refusal to export the conflicts of a shared view.
pub open spec fn shared_conflict_message(view: Seq<char>, entries: nat) -> Seq<char> {
    "view '"@ + view + "' has "@ + text::decimal(entries)
        + " unresolved Atomic conflict(s); Shared/remote export is refused. A Draft ref projects conflicts as an ordinary conflict-snapshot commit; Shared export requires --allow-conflicts (which still cannot bypass representability, trust, signing, or complete-pack checks)"@
}

/// Decide how a view's conflict state projects: `entries` is the size of the
/// captured conflict set, where there is one. Drafts project conflicts by
/// default, shared views only when explicitly allowed.
pub fn resolve_conflict_export(
    view: &str,
    entries: Option<u64>,
    scope: ViewScope,
    allow_conflicts: bool,
) -> (r: Result<ConflictExport, CliError>)
    ensures
        match entries {
            None => r == Ok::<ConflictExport, CliError>(ConflictExport::Clean),
            Some(n) => if scope == ViewScope::Shared && !allow_conflicts {
                r matches Err(e) && e.is_invalid_operation(
                    shared_conflict_message(view@, n as nat),
                )
            } else {
                r == Ok::<ConflictExport, CliError>(ConflictExport::Snapshot)
            },
        },
{
    match entries {
        None => Ok(ConflictExport::Clean),
        Some(n) => {
            if scope == ViewScope::Shared && !allow_conflicts {
                let mut m: String = "view '".to_owned();
                m.append(view);
                m.append("' has ");
                m.append(&to_decimal(n));
                m.append(
                    " unresolved Atomic conflict(s); Shared/remote export is refused. A Draft ref projects conflicts as an ordinary conflict-snapshot commit; Shared export requires --allow-conflicts (which still cannot bypass representability, trust, signing, or complete-pack checks)",
                );
                return Err(CliError::InvalidOperation { message: m });
            }
            Ok(ConflictExport::Snapshot)
        },
    }
}

/// Refuse a snapshot whose prepared conflict set is not the captured one.
pub fn confirm_snapshot(prepared_is_captured: bool) -> (r: Result<(), CliError>)
    ensures
        if prepared_is_captured {
            r is Ok
        } else {
            r matches Err(e) && e.is_git_error(
                "conflict snapshot preparation disagreed with the captured conflict state"@,
            )
        },
{
    if prepared_is_captured {
        Ok(())
    } else {
        Err(
            git_error(
                "conflict snapshot preparation disagreed with the captured conflict state".to_owned(),
            ),
        )
    }
}

/// Where the projection of a view lands.
#[derive(Debug)]
pub enum HeadPolicy {
    /// Shared view: the mapped branch, checked out symbolically.
    SharedBranch { branch_ref: String },
    /// Draft view: a private ref, with a detached current commit.
    Draft { view_ref: String },
    /// Ephemeral view: its adopted commit, detached, while its tree is
    /// unchanged.
    Ephemeral { original: String },
}

/// A `HeadPolicy` as a value.
pub enum HeadPolicyView {
    SharedBranch { branch_ref: Seq<char> },
    Draft { view_ref: Seq<char> },
    Ephemeral { original: Seq<char> },
}

impl View for HeadPolicy {
    type V = HeadPolicyView;

    open spec fn view(&self) -> HeadPolicyView {
        match self {
            HeadPolicy::SharedBranch { branch_ref } => HeadPolicyView::SharedBranch {
                branch_ref: branch_ref@,
            },
            HeadPolicy::Draft { view_ref } => HeadPolicyView::Draft { view_ref: view_ref@ },
            HeadPolicy::Ephemeral { original } => HeadPolicyView::Ephemeral {
                original: original@,
            },
        }
    }
}

/// Where the projection of a view lands: the mapped ref where there is one,
/// else the scope policy; `scope` is shared when the view is not known.
pub open spec fn head_policy(
    view: Seq<char>,
    scope: Option<ViewScope>,
    mapped: Option<Seq<char>>,
    original: Option<Seq<char>>,
) -> HeadPolicyView {
    let s = match scope {
        Some(s) => s,
        None => ViewScope::Shared,
    };
    match s {
        ViewScope::Shared => HeadPolicyView::SharedBranch {
            branch_ref: match mapped {
                Some(m) => m,
                None => "refs/heads/"@ + view,
            },
        },
        ViewScope::Draft => match mapped {
            Some(m) => HeadPolicyView::Draft { view_ref: m },
            None => match original {
                Some(o) => HeadPolicyView::Ephemeral { original: o },
                None => HeadPolicyView::Draft { view_ref: "refs/atomic/views/"@ + view },
            },
        },
    }
}

/// Resolve where the projection of a view lands. `original` is the commit
/// that an ephemeral view adopted, where the view is one.
pub fn resolve_head_policy(
    view: &str,
    scope: Option<ViewScope>,
    mapping: Option<&RefMapping>,
    original: Option<&str>,
) -> (r: HeadPolicy)
    ensures
        r@ == head_policy(
            view@,
            scope,
            (match mapping {
                Some(m) => m@.local_ref,
                None => None,
            }),
            text::opt_str(original),
        ),
{
    let s = match scope {
        Some(s) => s,
        None => ViewScope::Shared,
    };
    if let Some(m) = mapping {
        if let Some(local_ref) = &m.local_ref {
            return match s {
                ViewScope::Shared => HeadPolicy::SharedBranch { branch_ref: local_ref.clone() },
                ViewScope::Draft => HeadPolicy::Draft { view_ref: local_ref.clone() },
            };
        }
    }
    match s {
        ViewScope::Shared => {
            let mut m: String = "refs/heads/".to_owned();
            m.append(view);
            HeadPolicy::SharedBranch { branch_ref: m }
        },
        ViewScope::Draft => {
            if let Some(o) = original {
                return HeadPolicy::Ephemeral { original: o.to_owned() };
            }
            let mut m: String = "refs/atomic/views/".to_owned();
            m.append(view);
            HeadPolicy::Draft { view_ref: m }
        },
    }
}

/// A draft never projects to a branch on its own: without an explicit
/// publication its ref lies outside the branch namespace.
pub proof fn draft_stays_off_the_branches(
    view: Seq<char>,
    original: Option<Seq<char>>,
)
    ensures
        head_policy(view, Some(ViewScope::Draft), None, original) !is SharedBranch,
        head_policy(view, Some(ViewScope::Draft), None, original) matches HeadPolicyView::Draft {
            view_ref,
        } ==> view_ref == "refs/atomic/views/"@ + view,
{
}

/// The ref of a mapping is where the view is projected to, shared or draft:
/// the next projection moves that ref, and a shared view's current commit
/// stays on it.
pub proof fn a_mapped_view_projects_to_its_ref(
    view: Seq<char>,
    scope: Option<ViewScope>,
    local_ref: Seq<char>,
    original: Option<Seq<char>>,
    commit: Seq<char>,
    tree: Seq<char>,
    created: bool,
)
    ensures
        ({
            let policy = head_policy(view, scope, Some(local_ref), original);
            let plan = published_plan(policy, view, commit, tree, created);
            &&& projection_ref(policy, view) == local_ref
            &&& policy !is Ephemeral
            &&& policy is SharedBranch <==> scope != Some(ViewScope::Draft)
            &&& plan.ref_name == local_ref
            &&& plan.intended_ref == Some(RefTargetView::Direct(commit))
            &&& plan.intended_head == Some(
                if scope == Some(ViewScope::Draft) {
                    RefTargetView::Direct(commit)
                } else {
                    RefTargetView::Symbolic(local_ref)
                },
            )
        }),
{
}

/// Without a mapping the scope decides: a view that is shared, or not known,
/// projects to the branch of its name, a draft to its private ref, and only
/// a draft can stay with the commit that it adopted.
pub proof fn an_unmapped_view_projects_by_its_scope(
    view: Seq<char>,
    scope: Option<ViewScope>,
    original: Option<Seq<char>>,
)
    ensures
        ({
            let policy = head_policy(view, scope, None, original);
            &&& projection_ref(policy, view) == if scope == Some(ViewScope::Draft) {
                "refs/atomic/views/"@ + view
            } else {
                "refs/heads/"@ + view
            }
            &&& policy is SharedBranch <==> scope != Some(ViewScope::Draft)
            &&& policy is Ephemeral <==> scope == Some(ViewScope::Draft) && original is Some
            &&& policy matches HeadPolicyView::Ephemeral { original: o } ==> Some(o) == original
        }),
{
}

/// Once a draft is published, its projections move the published branch, and
/// no longer its private ref, also after a refresh.
pub proof fn a_published_draft_projects_to_its_branch(
    run: publish_run::PublishView,
    view_id: u64,
    refreshed_id: u64,
    tip: Option<Seq<char>>,
    exported_tip: Option<Seq<char>>,
    state: Seq<char>,
    original: Option<Seq<char>>,
)
    ensures
        ({
            let m = publish_run::mapping_after(run, view_id);
            let later = ref_mapping::refreshed_of(
                Some(m),
                refreshed_id,
                run.view,
                ViewScope::Draft,
                false,
                tip,
                exported_tip,
                state,
            );
            let branch = "refs/heads/"@ + run.branch;
            &&& projection_ref(
                head_policy(run.view, Some(ViewScope::Draft), m.local_ref, original),
                run.view,
            ) == branch
            &&& projection_ref(
                head_policy(run.view, Some(ViewScope::Draft), later.local_ref, original),
                run.view,
            ) == branch
        }),
{
}

/// How many hexadecimal digits name the adopted commit of an ephemeral view.
pub const EPHEMERAL_PREFIX_LEN: usize = 7;

/// Whether `c` is a hexadecimal digit.
pub open spec fn hex_digit(c: char) -> bool {
    ('0' <= c && c <= '9') || ('a' <= c && c <= 'f') || ('A' <= c && c <= 'F')
}

/// The commit prefix that the name of an ephemeral view carries.
pub open spec fn ephemeral_prefix_of(view: Seq<char>) -> Option<Seq<char>> {
    if text::has_prefix(view, "git/"@) {
        let oid = view.skip(4);
        if oid.len() == EPHEMERAL_PREFIX_LEN && forall|i: int|
            0 <= i < oid.len() ==> hex_digit(#[trigger] oid[i]) {
            Some(oid)
        } else {
            None
        }
    } else {
        None
    }
}

/// The commit prefix that the name of an ephemeral view carries; the commit
/// that it resolves to is the one that the view adopted.
pub fn ephemeral_prefix(view: &str) -> (r: Option<String>)
    ensures
        text::opt_text(r) == ephemeral_prefix_of(view@),
{
    proof {
        reveal_strlit("git/");
    }
    match strip_prefix(view, "git/") {
        None => None,
        Some(oid) => {
            let cs = chars_of(&oid);
            if cs.len() != EPHEMERAL_PREFIX_LEN {
                return None;
            }
            let mut i: usize = 0;
            while i < cs.len()
                invariant
                    i <= cs@.len(),
                    cs@ == oid@,
                    oid@ == view@.skip(4),
                    text::has_prefix(view@, "git/"@),
                    forall|k: int| 0 <= k < i ==> hex_digit(#[trigger] cs@[k]),
                decreases cs@.len() - i,
            {
                let c: char = cs[i];
                if !(('0' <= c && c <= '9') || ('a' <= c && c <= 'f') || ('A' <= c && c <= 'F')) {
                    return None;
                }
                i += 1;
            }
            Some(oid)
        },
    }
}

/// The ref that a projection updates.
pub open spec fn projection_ref(p: HeadPolicyView, view: Seq<char>) -> Seq<char> {
    match p {
        HeadPolicyView::SharedBranch { branch_ref } => branch_ref,
        HeadPolicyView::Draft { view_ref } => view_ref,
        HeadPolicyView::Ephemeral { .. } => "refs/atomic/views/"@ + view,
    }
}

/// The ref that a projection updates.
pub fn target_ref(policy: &HeadPolicy, view: &str) -> (r: String)
    ensures
        r@ == projection_ref(policy@, view@),
{
    match policy {
        HeadPolicy::SharedBranch { branch_ref } => branch_ref.clone(),
        HeadPolicy::Draft { view_ref } => view_ref.clone(),
        HeadPolicy::Ephemeral { .. } => {
            let mut m: String = "refs/atomic/views/".to_owned();
            m.append(view);
            m
        },
    }
}

/// What a Git ref is to point at.
#[derive(Debug)]
pub enum RefTarget {
    Direct(String),
    Symbolic(String),
}

/// A `RefTarget` as a value.
pub enum RefTargetView {
    Direct(Seq<char>),
    Symbolic(Seq<char>),
}

impl View for RefTarget {
    type V = RefTargetView;

    open spec fn view(&self) -> RefTargetView {
        match self {
            RefTarget::Direct(o) => RefTargetView::Direct(o@),
            RefTarget::Symbolic(s) => RefTargetView::Symbolic(s@),
        }
    }
}

/// The view of an optional ref target.
pub open spec fn opt_target(o: Option<RefTarget>) -> Option<RefTargetView> {
    match o {
        Some(t) => Some(t@),
        None => None,
    }
}

/// The effects of one journaled publication: each is written under a lease
/// on what it replaces.
#[derive(Debug)]
pub struct ProjectionPlan {
    /// The ref that the publication is about.
    pub ref_name: String,
    /// What the ref is to point at; none to leave it.
    pub intended_ref: Option<RefTarget>,
    /// What the current commit is to be; none to leave it.
    pub intended_head: Option<RefTarget>,
    /// The tree that the index is aligned to; none to leave it.
    pub index_tree: Option<String>,
    /// The branch of the verified checkpoint, where the current commit is on
    /// one.
    pub checkpoint_symref: Option<String>,
    /// The commit of the verified checkpoint; none to publish none.
    pub checkpoint_head: Option<String>,
    /// Whether the commit object is to be created.
    pub create_commit: bool,
}

/// A `ProjectionPlan` as a value.
#[verifier::ext_equal]
pub struct ProjectionPlanView {
    pub ref_name: Seq<char>,
    pub intended_ref: Option<RefTargetView>,
    pub intended_head: Option<RefTargetView>,
    pub index_tree: Option<Seq<char>>,
    pub checkpoint_symref: Option<Seq<char>>,
    pub checkpoint_head: Option<Seq<char>>,
    pub create_commit: bool,
}

impl View for ProjectionPlan {
    type V = ProjectionPlanView;

    open spec fn view(&self) -> ProjectionPlanView {
        ProjectionPlanView {
            ref_name: self.ref_name@,
            intended_ref: opt_target(self.intended_ref),
            intended_head: opt_target(self.intended_head),
            index_tree: text::opt_text(self.index_tree),
            checkpoint_symref: text::opt_text(self.checkpoint_symref),
            checkpoint_head: text::opt_text(self.checkpoint_head),
            create_commit: self.create_commit,
        }
    }
}

/// How a projection starts, once its tree is verified.
#[derive(Debug)]
pub enum ProjectionStart {
    /// The adopted commit of an ephemeral view still is its projection:
    /// retain it, detached.
    Retain(ProjectionPlan),
    /// Stage the tree under this marker policy and build a commit.
    Build(ConflictMarkerPolicy),
}

/// The effects that retain the adopted commit of an ephemeral view.
pub open spec fn retained_plan(
    policy: HeadPolicyView,
    view: Seq<char>,
    commit: Seq<char>,
    tree: Seq<char>,
) -> ProjectionPlanView {
    ProjectionPlanView {
        ref_name: projection_ref(policy, view),
        intended_ref: None,
        intended_head: Some(RefTargetView::Direct(commit)),
        index_tree: Some(tree),
        checkpoint_symref: None,
        checkpoint_head: Some(commit),
        create_commit: false,
    }
}

/// The marker policy of a projection: a clean state must not carry markers,
/// a snapshot carries them deliberately.
pub open spec fn projection_markers(export: ConflictExport) -> ConflictMarkerPolicy {
    match export {
        ConflictExport::Clean => ConflictMarkerPolicy::Refuse,
        ConflictExport::Snapshot => ConflictMarkerPolicy::AllowExplicitly,
    }
}

/// Decide how a projection starts: `adopted` is the commit of an ephemeral
/// view with its tree, `tree` the verified projected tree. Only a clean
/// state retains.
pub fn start_projection(
    policy: &HeadPolicy,
    view: &str,
    export: ConflictExport,
    adopted: Option<(&str, &str)>,
    tree: &str,
) -> (r: ProjectionStart)
    ensures
        match adopted {
            Some((commit, commit_tree)) => if policy@ is Ephemeral && export
                == ConflictExport::Clean && commit_tree@ == tree@ {
                r matches ProjectionStart::Retain(p) && p@ == retained_plan(
                    policy@,
                    view@,
                    commit@,
                    tree@,
                )
            } else {
                r matches ProjectionStart::Build(m) && m == projection_markers(export)
            },
            None => r matches ProjectionStart::Build(m) && m == projection_markers(export),
        },
{
    let ephemeral: bool = match policy {
        HeadPolicy::Ephemeral { .. } => true,
        _ => false,
    };
    if ephemeral && export == ConflictExport::Clean {
        if let Some((commit, commit_tree)) = adopted {
            if same_text(commit_tree, tree) {
                return ProjectionStart::Retain(
                    ProjectionPlan {
                        ref_name: target_ref(policy, view),
                        intended_ref: None,
                        intended_head: Some(RefTarget::Direct(commit.to_owned())),
                        index_tree: Some(tree.to_owned()),
                        checkpoint_symref: None,
                        checkpoint_head: Some(commit.to_owned()),
                        create_commit: false,
                    },
                );
            }
        }
    }
    ProjectionStart::Build(
        match export {
            ConflictExport::Clean => ConflictMarkerPolicy::Refuse,
            ConflictExport::Snapshot => ConflictMarkerPolicy::AllowExplicitly,
        },
    )
}

/// The effects that publish a projection commit: the ref advances to it, and
/// the current commit is symbolic on the branch of a shared view, detached
/// for every other one.
pub open spec fn published_plan(
    policy: HeadPolicyView,
    view: Seq<char>,
    commit: Seq<char>,
    tree: Seq<char>,
    created: bool,
) -> ProjectionPlanView {
    ProjectionPlanView {
        ref_name: projection_ref(policy, view),
        intended_ref: Some(RefTargetView::Direct(commit)),
        intended_head: Some(
            match policy {
                HeadPolicyView::SharedBranch { branch_ref } => RefTargetView::Symbolic(branch_ref),
                _ => RefTargetView::Direct(commit),
            },
        ),
        index_tree: Some(tree),
        checkpoint_symref: match policy {
            HeadPolicyView::SharedBranch { branch_ref } => Some(branch_ref),
            _ => None,
        },
        checkpoint_head: Some(commit),
        create_commit: created,
    }
}

/// The effects that publish a projection commit; `created` says whether its
/// object is new.
pub fn publish_projection(
    policy: &HeadPolicy,
    view: &str,
    commit: &str,
    tree: &str,
    created: bool,
) -> (r: ProjectionPlan)
    ensures
        r@ == published_plan(policy@, view@, commit@, tree@, created),
{
    let (intended_head, checkpoint_symref) = match policy {
        HeadPolicy::SharedBranch { branch_ref } => (
            RefTarget::Symbolic(branch_ref.clone()),
            Some(branch_ref.clone()),
        ),
        _ => (RefTarget::Direct(commit.to_owned()), None),
    };
    ProjectionPlan {
        ref_name: target_ref(policy, view),
        intended_ref: Some(RefTarget::Direct(commit.to_owned())),
        intended_head: Some(intended_head),
        index_tree: Some(tree.to_owned()),
        checkpoint_symref,
        checkpoint_head: Some(commit.to_owned()),
        create_commit: created,
    }
}

/// Every projection leaves ref, current commit, index and checkpoint in
/// agreement: whatever moves, moves to the one published commit and tree.
pub proof fn projection_effects_agree(
    policy: HeadPolicyView,
    view: Seq<char>,
    commit: Seq<char>,
    tree: Seq<char>,
    created: bool,
)
    ensures
        ({
            let p = published_plan(policy, view, commit, tree, created);
            &&& p.intended_ref == Some(RefTargetView::Direct(commit))
            &&& p.checkpoint_head == Some(commit)
            &&& p.index_tree == Some(tree)
            &&& (p.intended_head == Some(RefTargetView::Direct(commit)) || p.intended_head == Some(
                RefTargetView::Symbolic(p.ref_name),
            ))
            &&& p.checkpoint_symref is Some ==> p.intended_head == Some(
                RefTargetView::Symbolic(p.checkpoint_symref->0),
            )
        }),
{
}

/// What follows a projection that failed.
#[derive(Clone, Copy, Debug, PartialEq, Eq, Structural)]
pub enum FailureRecovery {
    /// The effects are journaled: their leases recover them.
    LeaveToJournal,
    /// Nothing was journaled: restore the captured state.
    RestoreSnapshot,
}

/// What follows a projection that failed: once it is journaled, its effects
/// are never moved behind the journal's back.
pub fn recovery_of(journaled: bool) -> (r: FailureRecovery)
    ensures
        r == (if journaled {
            FailureRecovery::LeaveToJournal
        } else {
            FailureRecovery::RestoreSnapshot
        }),
{
    if journaled {
        FailureRecovery::LeaveToJournal
    } else {
        FailureRecovery::RestoreSnapshot
    }
}

/// The error of a failed projection, with what could not be restored.
pub fn projection_failure(error: &str, restore_failures: &Vec<String>) -> (r: String)
    ensures
        r@ == (if restore_failures@.len() == 0 {
            error@
        } else {
            error@ + "; additionally failed to restore original Git state: "@ + text::joined(
                text::texts(restore_failures@),
                "; "@,
            )
        }),
{
    let mut m: String = error.to_owned();
    if restore_failures.len() > 0 {
        m.append("; additionally failed to restore original Git state: ");
        m.append(&join(restore_failures, "; "));
    }
    m
}

/// What the restoration of a captured reference does.
#[derive(Debug)]
pub enum RestoreAction {
    /// Delete the reference, if it exists.
    Delete,
    /// Point the reference at this commit.
    SetDirect(String),
    /// Point the reference at this name.
    SetSymbolic(String),
}

/// A captured reference.
#[derive(Debug)]
pub enum ReferenceSnapshot {
    Missing,
    Direct(String),
    Symbolic(String),
}

/// What a reference is: nothing, a commit, or another name.
pub enum RefState {
    Absent,
    Direct(Seq<char>),
    Symbolic(Seq<char>),
}

/// What was captured of a reference.
pub open spec fn captured_state(s: ReferenceSnapshot) -> RefState {
    match s {
        ReferenceSnapshot::Missing => RefState::Absent,
        ReferenceSnapshot::Direct(t) => RefState::Direct(t@),
        ReferenceSnapshot::Symbolic(t) => RefState::Symbolic(t@),
    }
}

/// What a reference was found to be, where it can be told.
pub open spec fn found_state(
    exists_now: bool,
    target: Option<Seq<char>>,
    symbolic: Option<Seq<char>>,
) -> Option<RefState> {
    if !exists_now {
        Some(RefState::Absent)
    } else {
        match target {
            Some(t) => Some(RefState::Direct(t)),
            None => match symbolic {
                Some(t) => Some(RefState::Symbolic(t)),
                None => None,
            },
        }
    }
}

/// What a reference is once it is restored.
pub open spec fn restored_state(a: RestoreAction) -> RefState {
    match a {
        RestoreAction::Delete => RefState::Absent,
        RestoreAction::SetDirect(t) => RefState::Direct(t@),
        RestoreAction::SetSymbolic(t) => RefState::Symbolic(t@),
    }
}

/// The captured state of a reference: its target, or its symbolic target,
/// or nothing when it is not there.
pub fn snapshot_reference(
    name: &str,
    exists_now: bool,
    target: Option<&str>,
    symbolic: Option<&str>,
) -> (r: Result<ReferenceSnapshot, CliError>)
    ensures
        match found_state(exists_now, text::opt_str(target), text::opt_str(symbolic)) {
            Some(s) => r matches Ok(c) && captured_state(c) == s,
            None => r matches Err(e) && e.is_git_error(
                "cannot snapshot Git reference '"@ + name@ + "': it has no target"@,
            ),
        },
{
    if !exists_now {
        return Ok(ReferenceSnapshot::Missing);
    }
    if let Some(t) = target {
        return Ok(ReferenceSnapshot::Direct(t.to_owned()));
    }
    if let Some(t) = symbolic {
        return Ok(ReferenceSnapshot::Symbolic(t.to_owned()));
    }
    let mut m: String = "cannot snapshot Git reference '".to_owned();
    m.append(name);
    m.append("': it has no target");
    Err(git_error(m))
}

/// How a captured reference is restored: to be again what was captured.
pub fn restore_reference(snapshot: &ReferenceSnapshot) -> (r: RestoreAction)
    ensures
        restored_state(r) == captured_state(*snapshot),
{
    match snapshot {
        ReferenceSnapshot::Missing => RestoreAction::Delete,
        ReferenceSnapshot::Direct(t) => RestoreAction::SetDirect(t.clone()),
        ReferenceSnapshot::Symbolic(t) => RestoreAction::SetSymbolic(t.clone()),
    }
}

/// How the captured index is restored.
#[derive(Debug)]
pub enum IndexRestore {
    /// Write these bytes.
    Write(Vec<u8>),
    /// Remove the index.
    Remove,
    /// Leave it out: there is none.
    Leave,
}

/// The index once it is restored, where it holds `now` before that.
pub open spec fn restored_index(a: IndexRestore, now: Option<Seq<u8>>) -> Option<Seq<u8>> {
    match a {
        IndexRestore::Write(b) => Some(b@),
        IndexRestore::Remove => None,
        IndexRestore::Leave => now,
    }
}

/// How a captured index is restored, where `present` tells whether there is
/// one now: to hold again the bytes that were captured, or not to be there.
pub fn restore_index(captured: &Option<Vec<u8>>, present: bool) -> (r: IndexRestore)
    ensures
        forall|now: Option<Seq<u8>>|
            now is Some == present ==> #[trigger] restored_index(r, now) == (match *captured {
                Some(b) => Some(b@),
                None => None,
            }),
{
    match captured {
        Some(bytes) => {
            let copy = bytes.clone();
            assert(copy@ =~= bytes@);
            IndexRestore::Write(copy)
        },
        None => if present {
            IndexRestore::Remove
        } else {
            IndexRestore::Leave
        },
    }
}

/// The commit that a projection builds on.
#[derive(Debug)]
pub enum ProjectionParent {
    /// The ref already is at the projected tree: nothing to build.
    AlreadyProjected(String),
    /// Build on this commit.
    Parent(String),
}

/// Why the adopted commit of an ephemeral view cannot be built on.
pub open spec fn unreadable_parent(original: Seq<char>, why: Seq<char>) -> Seq<char> {
    "ephemeral default parent "@ + original + " is unreadable: "@ + why
}

/// Why nothing can be built on without a current commit.
pub open spec fn no_current_commit(view: Seq<char>, why: Seq<char>) -> Seq<char> {
    "cannot create shadow projection for '"@ + view + "' without a current Git HEAD commit: "@
        + why
}

/// The commit that a projection without a tip builds on: the adopted commit
/// of an ephemeral view, else the current commit; or why there is none.
pub open spec fn default_parent(
    policy: HeadPolicyView,
    view: Seq<char>,
    adopted: Result<Seq<char>, Seq<char>>,
    head: Result<Seq<char>, Seq<char>>,
) -> Result<Seq<char>, Seq<char>> {
    match policy {
        HeadPolicyView::Ephemeral { original } => match adopted {
            Ok(c) => Ok(c),
            Err(why) => Err(unreadable_parent(original, why)),
        },
        _ => match head {
            Ok(c) => Ok(c),
            Err(why) => Err(no_current_commit(view, why)),
        },
    }
}

/// The texts of a commit, or of why there is none.
pub open spec fn read_text(r: Result<&str, &str>) -> Result<Seq<char>, Seq<char>> {
    match r {
        Ok(s) => Ok(s@),
        Err(s) => Err(s@),
    }
}

/// The commit that a projection builds on: the tip of its ref, else the
/// adopted commit of an ephemeral view, else the current commit. `adopted`
/// and `head` are those commits, or why they cannot be read.
pub fn projection_parent(
    view: &str,
    policy: &HeadPolicy,
    tip: Option<(&str, &str)>,
    adopted: Result<&str, &str>,
    head: Result<&str, &str>,
    tree: &str,
) -> (r: Result<ProjectionParent, CliError>)
    ensures
        match tip {
            Some((commit, commit_tree)) => if commit_tree@ == tree@ {
                r matches Ok(ProjectionParent::AlreadyProjected(c)) && c@ == commit@
            } else {
                r matches Ok(ProjectionParent::Parent(c)) && c@ == commit@
            },
            None => match default_parent(policy@, view@, read_text(adopted), read_text(head)) {
                Ok(p) => r matches Ok(ProjectionParent::Parent(c)) && c@ == p,
                Err(m) => r matches Err(e) && e.is_git_error(m),
            },
        },
{
    match tip {
        Some((commit, commit_tree)) => {
            if same_text(commit_tree, tree) {
                Ok(ProjectionParent::AlreadyProjected(commit.to_owned()))
            } else {
                Ok(ProjectionParent::Parent(commit.to_owned()))
            }
        },
        None => {
            if let HeadPolicy::Ephemeral { original } = policy {
                return match adopted {
                    Ok(c) => Ok(ProjectionParent::Parent(c.to_owned())),
                    Err(why) => {
                        let mut m: String = "ephemeral default parent ".to_owned();
                        m.append(original);
                        m.append(" is unreadable: ");
                        m.append(why);
                        Err(git_error(m))
                    },
                };
            }
            match head {
                Ok(h) => Ok(ProjectionParent::Parent(h.to_owned())),
                Err(why) => {
                    let mut m: String = "cannot create shadow projection for '".to_owned();
                    m.append(view);
                    m.append("' without a current Git HEAD commit: ");
                    m.append(why);
                    Err(git_error(m))
                },
            }
        },
    }
}

/// A projection that is not for the verified publication is refused.
pub fn confirm_projection(
    publication_view: &str,
    publication_tree: &str,
    view: &str,
    tree: &str,
) -> (r: Result<(), CliError>)
    ensures
        if publication_view@ == view@ && publication_tree@ == tree@ {
            r is Ok
        } else {
            r matches Err(e) && e.is_git_error(
                "shadow projection does not match verified publication"@,
            )
        },
{
    if same_text(publication_view, view) && same_text(publication_tree, tree) {
        Ok(())
    } else {
        Err(git_error("shadow projection does not match verified publication".to_owned()))
    }
}

/// A name with an email address.
#[derive(Debug)]
pub struct Signature {
    pub name: String,
    pub email: String,
}

/// The committer of a projection when Git has none configured: the recorded
/// author with a name, else the system.
pub open spec fn fallback_committer(author: Option<(Seq<char>, Option<Seq<char>>)>) -> (
    Seq<char>,
    Seq<char>,
) {
    match author {
        Some((name, email)) => if name.len() > 0 {
            (
                name,
                match email {
                    Some(e) => e,
                    None => "atomic@invalid"@,
                },
            )
        } else {
            ("atomic"@, "atomic@invalid"@)
        },
        None => ("atomic"@, "atomic@invalid"@),
    }
}

/// The recorded author as text.
pub open spec fn opt_author(o: Option<(&str, Option<&str>)>) -> Option<
    (Seq<char>, Option<Seq<char>>),
> {
    match o {
        Some((n, e)) => Some((n@, text::opt_str(e))),
        None => None,
    }
}

/// The committer of a projection when Git has none configured.
pub fn projection_committer(author: Option<(&str, Option<&str>)>) -> (r: Signature)
    ensures
        (r.name@, r.email@) == fallback_committer(opt_author(author)),
{
    if let Some((name, email)) = author {
        if !name.is_empty() {
            return Signature {
                name: name.to_owned(),
                email: match email {
                    Some(e) => e.to_owned(),
                    None => "atomic@invalid".to_owned(),
                },
            };
        }
    }
    Signature { name: "atomic".to_owned(), email: "atomic@invalid".to_owned() }
}

/// The author of a projection before its identity is resolved: the default
/// identity, else the Git signature, else a placeholder.
pub fn projection_author_name(
    identity: Option<(&str, Option<&str>)>,
    fallback_name: Option<&str>,
    fallback_email: Option<&str>,
) -> (r: Signature)
    ensures
        match identity {
            Some((n, e)) => r.name@ == n@ && r.email@ == (match e {
                Some(e) => e@,
                None => ""@,
            }),
            None => r.name@ == (match fallback_name {
                Some(n) => n@,
                None => "Atomic"@,
            }) && r.email@ == (match fallback_email {
                Some(e) => e@,
                None => "atomic@localhost"@,
            }),
        },
{
    match identity {
        Some((n, e)) => Signature {
            name: n.to_owned(),
            email: match e {
                Some(e) => e.to_owned(),
                None => "".to_owned(),
            },
        },
        None => Signature {
            name: match fallback_name {
                Some(n) => n.to_owned(),
                None => "Atomic".to_owned(),
            },
            email: match fallback_email {
                Some(e) => e.to_owned(),
                None => "atomic@localhost".to_owned(),
            },
        },
    }
}

/// The message of a projection commit; `change` is the recorded change that
/// it publishes.
pub open spec fn projection_text(change: Option<Seq<char>>, view: Seq<char>, state: Seq<char>) -> Seq<
    char,
> {
    match change {
        Some(c) => "Atomic record projection\n\nAtomic-View: "@ + view + "\nAtomic-State: "@ + state
            + "\nAtomic-Changes: "@ + c + "\n"@,
        None => "Atomic shadow switch projection\n\nAtomic-View: "@ + view + "\nAtomic-State: "@
            + state + "\n"@,
    }
}

/// The message of a projection commit.
pub fn projection_message_for(change: Option<&str>, view: &str, state: &str) -> (r: String)
    ensures
        r@ == projection_text(text::opt_str(change), view@, state@),
{
    match change {
        Some(c) => {
            let mut m: String = "Atomic record projection\n\nAtomic-View: ".to_owned();
            m.append(view);
            m.append("\nAtomic-State: ");
            m.append(state);
            m.append("\nAtomic-Changes: ");
            m.append(c);
            m.append("\n");
            m
        },
        None => {
            let mut m: String = "Atomic shadow switch projection\n\nAtomic-View: ".to_owned();
            m.append(view);
            m.append("\nAtomic-State: ");
            m.append(state);
            m.append("\n");
            m
        },
    }
}

/// What the projection after a record does.
#[derive(Clone, Copy, Debug, PartialEq, Eq, Structural)]
pub enum RecordProjection {
    /// Nothing: no active shadow, another view, or an ephemeral one.
    Skip,
    /// Nothing, with a warning: markers must not become Git evidence.
    SkipMarkers,
    /// Project the recorded state.
    Project,
}

/// Decide on the projection after a record on `view`.
pub fn record_projection(
    shadow_active: bool,
    desired_view: &str,
    view: &str,
    policy: &HeadPolicy,
    has_markers: bool,
) -> (r: RecordProjection)
    ensures
        r == (if !shadow_active || desired_view@ != view@ || policy@ is Ephemeral {
            RecordProjection::Skip
        } else if has_markers {
            RecordProjection::SkipMarkers
        } else {
            RecordProjection::Project
        }),
{
    let ephemeral: bool = match policy {
        HeadPolicy::Ephemeral { .. } => true,
        _ => false,
    };
    if !shadow_active || !same_text(desired_view, view) || ephemeral {
        RecordProjection::Skip
    } else if has_markers {
        RecordProjection::SkipMarkers
    } else {
        RecordProjection::Project
    }
}

/// What the synchronization of a view switch does.
#[derive(Clone, Copy, Debug, PartialEq, Eq, Structural)]
pub enum SwitchStart {
    SkippedNoGit,
    SkippedInactive,
    Project,
}

/// Decide on the synchronization of a switch to `view`. Once the shadow is
/// active nothing is skipped: another current view or a held lock is an
/// error.
pub fn start_switch(
    in_git: bool,
    shadow_active: bool,
    desired_view: &str,
    view: &str,
    lock_free: bool,
) -> (r: Result<SwitchStart, CliError>)
    ensures
        if !in_git {
            r == Ok::<SwitchStart, CliError>(SwitchStart::SkippedNoGit)
        } else if !shadow_active {
            r == Ok::<SwitchStart, CliError>(SwitchStart::SkippedInactive)
        } else if desired_view@ != view@ {
            r matches Err(e) && e.is_git_error(
                "cannot synchronize Git shadow for view '"@ + view@
                    + "': current Atomic view is '"@ + desired_view@ + "'"@,
            )
        } else if !lock_free {
            r matches Err(e) && e.is_git_error(
                "another shadow materialize is in flight; retry the view switch after it completes"@,
            )
        } else {
            r == Ok::<SwitchStart, CliError>(SwitchStart::Project)
        },
{
    if !in_git {
        return Ok(SwitchStart::SkippedNoGit);
    }
    if !shadow_active {
        return Ok(SwitchStart::SkippedInactive);
    }
    if !same_text(desired_view, view) {
        let mut m: String = "cannot synchronize Git shadow for view '".to_owned();
        m.append(view);
        m.append("': current Atomic view is '");
        m.append(desired_view);
        m.append("'");
        return Err(git_error(m));
    }
    if !lock_free {
        return Err(
            git_error(
                "another shadow materialize is in flight; retry the view switch after it completes".to_owned(),
            ),
        );
    }
    Ok(SwitchStart::Project)
}

/// The tag of a validator entry in the shadow log.
pub open spec fn validate_tag(rule: Seq<char>) -> Seq<char> {
    "shadow-validate:"@ + rule
}

/// One line of the shadow log.
pub open spec fn log_line(
    time: Seq<char>,
    tag: Seq<char>,
    view: Seq<char>,
    detail: Seq<char>,
) -> Seq<char> {
    time + " "@ + tag + " view="@ + view + " "@ + detail + "\n"@
}

/// One line of the shadow log, written at `time`.
pub fn append_shadow_log(time: &str, tag: &str, view: &str, detail: &str) -> (r: String)
    ensures
        r@ == log_line(time@, tag@, view@, detail@),
{
    let mut m: String = time.to_owned();
    m.append(" ");
    m.append(tag);
    m.append(" view=");
    m.append(view);
    m.append(" ");
    m.append(detail);
    m.append("\n");
    m
}

/// The line of the shadow log that records a refused publication.
pub fn append_shadow_validate_log(time: &str, rule: &str, view: &str, detail: &str) -> (r: String)
    ensures
        r@ == log_line(time@, validate_tag(rule@), view@, detail@),
{
    let mut tag: String = "shadow-validate:".to_owned();
    tag.append(rule);
    append_shadow_log(time, &tag, view, detail)
}

/// Refuse to publish a projection whose objects are not SHA-1 objects.
pub fn require_publishable(algorithm: GitHashAlgorithm) -> (r: Result<(), CliError>)
    ensures
        match algorithm {
            GitHashAlgorithm::Sha1 => r is Ok,
            GitHashAlgorithm::Sha256 => r matches Err(e) && e.is_git_error(
                "libgit2 cannot safely publish Sha256 Atomic projections"@,
            ),
        },
{
    match algorithm {
        GitHashAlgorithm::Sha1 => Ok(()),
        GitHashAlgorithm::Sha256 => Err(
            git_error("libgit2 cannot safely publish Sha256 Atomic projections".to_owned()),
        ),
    }
}

/// Refuse to align the index to a tree that was not verified.
pub fn require_verified_tree(verified: &str, tree: &str) -> (r: Result<(), CliError>)
    ensures
        verified@ == tree@ ==> r is Ok,
        verified@ != tree@ ==> (r matches Err(e) && e.is_git_error(
            "refusing to align index to an unverified tree"@,
        )),
{
    if same_text(verified, tree) {
        Ok(())
    } else {
        Err(git_error("refusing to align index to an unverified tree".to_owned()))
    }
}

/// What belongs to Atomic never enters a shadow commit, however deep it lies,
/// and a path that does not begin with a dot always may.
pub proof fn only_atomic_paths_are_forbidden(rest: Seq<char>, path: Seq<char>)
    ensures
        forbidden_path(".atomic/"@ + rest),
        forbidden_path(".vault/"@ + rest),
        forbidden_path(".atomicignore"@),
        path.len() == 0 || path[0] != '.' ==> !forbidden_path(path),
{
    reveal_strlit(".atomic/");
    reveal_strlit(".vault/");
    reveal_strlit(".atomicignore");
    let a = ".atomic/"@ + rest;
    let v = ".vault/"@ + rest;
    assert(a.take(8) =~= ".atomic/"@);
    assert(v.take(7) =~= ".vault/"@);
    if path.len() == 0 || path[0] != '.' {
        if text::has_prefix(path, ".atomic/"@) {
            assert(path.take(8)[0] == path[0]);
        }
        if text::has_prefix(path, ".vault/"@) {
            assert(path.take(7)[0] == path[0]);
        }
    }
}

/// The first forbidden path is named: it is among the paths, forbidden, and
/// nothing before it is.
pub proof fn the_first_forbidden_path_is_named(paths: Seq<Seq<char>>)
    ensures
        first_forbidden(paths) matches Some(p) ==> exists|i: int|
            0 <= i < paths.len() && #[trigger] paths[i] == p && forbidden_path(p) && forall|j: int|
                0 <= j < i ==> !forbidden_path(#[trigger] paths[j]),
    decreases paths.len(),
{
    if paths.len() > 0 {
        if forbidden_path(paths[0]) {
            assert(paths[0] == first_forbidden(paths)->0);
        } else {
            let t = paths.drop_first();
            the_first_forbidden_path_is_named(t);
            if let Some(p) = first_forbidden(t) {
                let i = choose|i: int|
                    0 <= i < t.len() && #[trigger] t[i] == p && forbidden_path(p) && forall|j: int|
                        0 <= j < i ==> !forbidden_path(#[trigger] t[j]);
                assert(paths[i + 1] == p);
                assert forall|j: int| 0 <= j < i + 1 implies !forbidden_path(
                    #[trigger] paths[j],
                ) by {
                    if j > 0 {
                        assert(paths[j] == t[j - 1]);
                    }
                }
            }
        }
    }
}

/// A view that was adopted for a commit carries the start of its id: the name
/// made from a prefix of the right length gives that prefix back, and no
/// other name gives one.
pub proof fn an_adopted_view_names_its_commit(prefix: Seq<char>, view: Seq<char>)
    requires
        prefix.len() == EPHEMERAL_PREFIX_LEN,
        forall|i: int| 0 <= i < prefix.len() ==> hex_digit(#[trigger] prefix[i]),
    ensures
        ephemeral_prefix_of("git/"@ + prefix) == Some(prefix),
        ephemeral_prefix_of(view) matches Some(p) ==> view == "git/"@ + p,
{
    reveal_strlit("git/");
    let v = "git/"@ + prefix;
    assert(v.take(4) =~= "git/"@);
    assert(v.skip(4) =~= prefix);
    if ephemeral_prefix_of(view) is Some {
        assert(view =~= view.take(4) + view.skip(4));
    }
}

/// What is observed is what is projected: the ref whose tip stands for a
/// lasting view in its mapping is the ref that a projection of the view
/// updates, mapped or not, and a fresh baseline names it too.
pub proof fn observation_and_projection_name_one_ref(
    previous: Option<ref_mapping::RefMappingView>,
    scope: ViewScope,
    view: Seq<char>,
    view_id: u64,
    tip: Option<Seq<char>>,
    state: Seq<char>,
)
    ensures
        ({
            let mapped = match previous {
                Some(m) => m.local_ref,
                None => None,
            };
            let projected = projection_ref(head_policy(view, Some(scope), mapped, None), view);
            &&& ref_mapping::effective_ref(previous, scope, view, false) == Some(projected)
            &&& ref_mapping::refreshed_of(
                previous,
                view_id,
                view,
                scope,
                false,
                tip,
                None,
                state,
            ).local_ref == Some(projected)
            &&& previous is None ==> ref_mapping::baseline_of(
                view_id,
                view,
                scope,
                false,
                tip,
                state,
            ).local_ref == Some(projected)
        }),
{
}

/// Two texts that are cut by a separator that neither first part holds are
/// the same only where both parts are.
proof fn lemma_same_parts(a: Seq<char>, r: Seq<char>, b: Seq<char>, q: Seq<char>, c: char)
    requires
        !a.contains(c),
        !b.contains(c),
        a + seq![c] + r == b + seq![c] + q,
    ensures
        a == b,
        r == q,
{
    let s = a + seq![c] + r;
    assert(s[a.len() as int] == c);
    assert(s[b.len() as int] == c);
    if a.len() < b.len() {
        assert(b[a.len() as int] == c);
    } else if b.len() < a.len() {
        assert(a[b.len() as int] == c);
    }
    assert(s.take(a.len() as int) =~= a);
    assert(s.take(a.len() as int) =~= b);
    assert(s.skip(a.len() as int + 1) =~= r);
    assert(s.skip(a.len() as int + 1) =~= q);
}

proof fn lemma_bool_text(x: bool, y: bool)
    ensures
        bool_text(x) == bool_text(y) ==> x == y,
        !bool_text(x).contains('\n'),
        !bool_text(x).contains('\0'),
{
    reveal_strlit("true");
    reveal_strlit("false");
    assert("true"@.len() == 4 && "false"@.len() == 5);
}

proof fn lemma_numbers_differ(a: nat, b: nat)
    ensures
        text::decimal(a) == text::decimal(b) ==> a == b,
        !text::decimal(a).contains('\n'),
{
    text::decimals_stand_for_their_number(a);
    text::decimals_stand_for_their_number(b);
    if text::decimal(a).contains('\n') {
        let d = text::decimal(a);
        let i = choose|i: int| 0 <= i < d.len() && d[i] == '\n';
        assert('0' <= d[i] <= '9');
    }
}

proof fn lemma_same_tail(p: Seq<char>, a: Seq<char>, b: Seq<char>)
    requires
        p + a == p + b,
    ensures
        a == b,
{
    let n = p.len() as int;
    assert((p + a).skip(n) =~= a);
    assert((p + b).skip(n) =~= b);
}

/// The lines of the configuration record.
spec fn config_lines(
    algorithm: GitHashAlgorithm,
    p: PlatformPolicy,
    timeout_ms: nat,
    max_output: nat,
) -> Seq<Seq<char>> {
    seq![
        "object="@ + (match algorithm {
            GitHashAlgorithm::Sha1 => "Sha1"@,
            GitHashAlgorithm::Sha256 => "Sha256"@,
        }),
        "filemode="@ + bool_text(p.executable_bit),
        "symlinks="@ + bool_text(p.symlinks),
        "ignorecase="@ + bool_text(!p.case_sensitive),
        "precomposeunicode="@ + bool_text(p.unicode_normalizing),
        "timeout="@ + text::decimal(timeout_ms),
        "max-output="@ + text::decimal(max_output),
    ]
}

/// The lines of a list, each ended.
spec fn ended_lines(ls: Seq<Seq<char>>) -> Seq<char>
    decreases ls.len(),
{
    if ls.len() == 0 {
        seq![]
    } else {
        ls[0] + seq!['\n'] + ended_lines(ls.drop_first())
    }
}

proof fn lemma_same_lines(a: Seq<Seq<char>>, b: Seq<Seq<char>>)
    requires
        a.len() == b.len(),
        forall|i: int| 0 <= i < a.len() ==> !(#[trigger] a[i]).contains('\n'),
        forall|i: int| 0 <= i < b.len() ==> !(#[trigger] b[i]).contains('\n'),
        ended_lines(a) == ended_lines(b),
    ensures
        a == b,
    decreases a.len(),
{
    if a.len() > 0 {
        assert(!a[0].contains('\n') && !b[0].contains('\n'));
        lemma_same_parts(
            a[0],
            ended_lines(a.drop_first()),
            b[0],
            ended_lines(b.drop_first()),
            '\n',
        );
        assert forall|i: int| 0 <= i < a.drop_first().len() implies !(
        #[trigger] a.drop_first()[i]).contains('\n') by {
            assert(a.drop_first()[i] == a[i + 1]);
        }
        assert forall|i: int| 0 <= i < b.drop_first().len() implies !(
        #[trigger] b.drop_first()[i]).contains('\n') by {
            assert(b.drop_first()[i] == b[i + 1]);
        }
        lemma_same_lines(a.drop_first(), b.drop_first());
        assert forall|i: int| 0 <= i < a.len() implies a[i] == b[i] by {
            if i > 0 {
                assert(a.drop_first()[i - 1] == b.drop_first()[i - 1]);
            }
        }
    }
    assert(a =~= b);
}

proof fn lemma_no_break(p: Seq<char>, v: Seq<char>)
    requires
        !p.contains('\n'),
        !v.contains('\n'),
    ensures
        !(p + v).contains('\n'),
{
    let s = p + v;
    if s.contains('\n') {
        let i = choose|i: int| 0 <= i < s.len() && s[i] == '\n';
        if i < p.len() {
            assert(p[i] == '\n');
        } else {
            assert(v[i - p.len()] == '\n');
        }
    }
}

#[verifier::spinoff_prover]
#[verifier::rlimit(40)]
proof fn lemma_config_text(
    algorithm: GitHashAlgorithm,
    p: PlatformPolicy,
    timeout_ms: nat,
    max_output: nat,
)
    ensures
        config_record(algorithm, p, timeout_ms, max_output) == ended_lines(
            config_lines(algorithm, p, timeout_ms, max_output),
        ),
{
    reveal_strlit("\nfilemode=");
    reveal_strlit("\nsymlinks=");
    reveal_strlit("\nignorecase=");
    reveal_strlit("\nprecomposeunicode=");
    reveal_strlit("\ntimeout=");
    reveal_strlit("\nmax-output=");
    reveal_strlit("\n");
    reveal_strlit("filemode=");
    reveal_strlit("symlinks=");
    reveal_strlit("ignorecase=");
    reveal_strlit("precomposeunicode=");
    reveal_strlit("timeout=");
    reveal_strlit("max-output=");
    let nl = seq!['\n'];
    assert("\nfilemode="@ =~= nl + "filemode="@);
    assert("\nsymlinks="@ =~= nl + "symlinks="@);
    assert("\nignorecase="@ =~= nl + "ignorecase="@);
    assert("\nprecomposeunicode="@ =~= nl + "precomposeunicode="@);
    assert("\ntimeout="@ =~= nl + "timeout="@);
    assert("\nmax-output="@ =~= nl + "max-output="@);
    assert("\n"@ =~= nl);
    let ls = config_lines(algorithm, p, timeout_ms, max_output);
    let l1 = ls.drop_first();
    let l2 = l1.drop_first();
    let l3 = l2.drop_first();
    let l4 = l3.drop_first();
    let l5 = l4.drop_first();
    let l6 = l5.drop_first();
    assert(l6.drop_first() =~= seq![]);
    assert(ended_lines(l6.drop_first()) =~= seq![]);
    assert(ended_lines(l6) =~= ls[6] + nl);
    assert(ended_lines(l5) =~= ls[5] + nl + ended_lines(l6));
    assert(ended_lines(l4) =~= ls[4] + nl + ended_lines(l5));
    assert(ended_lines(l3) =~= ls[3] + nl + ended_lines(l4));
    assert(ended_lines(l2) =~= ls[2] + nl + ended_lines(l3));
    assert(ended_lines(l1) =~= ls[1] + nl + ended_lines(l2));
    assert(ended_lines(ls) =~= ls[0] + nl + ended_lines(l1));
    assert(config_record(algorithm, p, timeout_ms, max_output) =~= ls[0] + nl + (ls[1] + nl + (
    ls[2] + nl + (ls[3] + nl + (ls[4] + nl + (ls[5] + nl + (ls[6] + nl)))))));
}

proof fn lemma_config_lines(
    algorithm: GitHashAlgorithm,
    p: PlatformPolicy,
    timeout_ms: nat,
    max_output: nat,
)
    ensures
        forall|i: int|
            0 <= i < 7 ==> !(#[trigger] config_lines(
                algorithm,
                p,
                timeout_ms,
                max_output,
            )[i]).contains('\n'),
{
    reveal_strlit("object=");
    reveal_strlit("Sha1");
    reveal_strlit("Sha256");
    reveal_strlit("filemode=");
    reveal_strlit("symlinks=");
    reveal_strlit("ignorecase=");
    reveal_strlit("precomposeunicode=");
    reveal_strlit("timeout=");
    reveal_strlit("max-output=");
    lemma_bool_text(p.executable_bit, true);
    lemma_bool_text(p.symlinks, true);
    lemma_bool_text(!p.case_sensitive, true);
    lemma_bool_text(p.unicode_normalizing, true);
    lemma_numbers_differ(timeout_ms, 0);
    lemma_numbers_differ(max_output, 0);
    lemma_no_break("object="@, match algorithm {
        GitHashAlgorithm::Sha1 => "Sha1"@,
        GitHashAlgorithm::Sha256 => "Sha256"@,
    });
    lemma_no_break("filemode="@, bool_text(p.executable_bit));
    lemma_no_break("symlinks="@, bool_text(p.symlinks));
    lemma_no_break("ignorecase="@, bool_text(!p.case_sensitive));
    lemma_no_break("precomposeunicode="@, bool_text(p.unicode_normalizing));
    lemma_no_break("timeout="@, text::decimal(timeout_ms));
    lemma_no_break("max-output="@, text::decimal(max_output));
}

/// The configuration record tells settings apart: two records are the same
/// only where every setting that a conversion depends on is.
pub proof fn different_settings_have_different_records(
    a: GitHashAlgorithm,
    p: PlatformPolicy,
    timeout_a: nat,
    output_a: nat,
    b: GitHashAlgorithm,
    q: PlatformPolicy,
    timeout_b: nat,
    output_b: nat,
)
    requires
        config_record(a, p, timeout_a, output_a) == config_record(b, q, timeout_b, output_b),
    ensures
        a == b,
        p.executable_bit == q.executable_bit,
        p.symlinks == q.symlinks,
        p.case_sensitive == q.case_sensitive,
        p.unicode_normalizing == q.unicode_normalizing,
        timeout_a == timeout_b,
        output_a == output_b,
{
    lemma_config_text(a, p, timeout_a, output_a);
    lemma_config_text(b, q, timeout_b, output_b);
    lemma_config_lines(a, p, timeout_a, output_a);
    lemma_config_lines(b, q, timeout_b, output_b);
    let x = config_lines(a, p, timeout_a, output_a);
    let y = config_lines(b, q, timeout_b, output_b);
    lemma_same_lines(x, y);
    assert(x[0] == y[0] && x[1] == y[1] && x[2] == y[2] && x[3] == y[3] && x[4] == y[4] && x[5]
        == y[5] && x[6] == y[6]);
    reveal_strlit("Sha1");
    reveal_strlit("Sha256");
    assert("Sha1"@.len() == 4 && "Sha256"@.len() == 6);
    lemma_same_tail("filemode="@, bool_text(p.executable_bit), bool_text(q.executable_bit));
    lemma_same_tail("symlinks="@, bool_text(p.symlinks), bool_text(q.symlinks));
    lemma_same_tail("ignorecase="@, bool_text(!p.case_sensitive), bool_text(!q.case_sensitive));
    lemma_same_tail(
        "precomposeunicode="@,
        bool_text(p.unicode_normalizing),
        bool_text(q.unicode_normalizing),
    );
    lemma_same_tail("timeout="@, text::decimal(timeout_a), text::decimal(timeout_b));
    lemma_same_tail("max-output="@, text::decimal(output_a), text::decimal(output_b));
    lemma_bool_text(p.executable_bit, q.executable_bit);
    lemma_bool_text(p.symlinks, q.symlinks);
    lemma_bool_text(!p.case_sensitive, !q.case_sensitive);
    lemma_bool_text(p.unicode_normalizing, q.unicode_normalizing);
    lemma_numbers_differ(timeout_a, timeout_b);
    lemma_numbers_differ(output_a, output_b);
}

/// The record of a filter driver tells drivers apart, as long as no part
/// holds a zero character.
pub proof fn different_drivers_have_different_records(
    n: Seq<char>,
    c: Seq<char>,
    s: Seq<char>,
    r: bool,
    m: Seq<char>,
    d: Seq<char>,
    t: Seq<char>,
    q: bool,
)
    requires
        !n.contains('\0') && !c.contains('\0') && !s.contains('\0'),
        !m.contains('\0') && !d.contains('\0') && !t.contains('\0'),
        driver_record(n, Some(c), Some(s), r) == driver_record(m, Some(d), Some(t), q),
    ensures
        n == m,
        c == d,
        s == t,
        r == q,
{
    reveal_strlit("\0");
    let z = seq!['\0'];
    assert("\0"@ =~= z);
    assert(driver_record(n, Some(c), Some(s), r) =~= n + z + (c + z + (s + z + bool_text(r))));
    assert(driver_record(m, Some(d), Some(t), q) =~= m + z + (d + z + (t + z + bool_text(q))));
    lemma_same_parts(
        n,
        c + z + (s + z + bool_text(r)),
        m,
        d + z + (t + z + bool_text(q)),
        '\0',
    );
    lemma_same_parts(c, s + z + bool_text(r), d, t + z + bool_text(q), '\0');
    lemma_same_parts(s, bool_text(r), t, bool_text(q), '\0');
    lemma_bool_text(r, q);
}

} // verus!
