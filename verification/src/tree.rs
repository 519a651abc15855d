//! Git trees: what an import can preserve of them, the tree that it is
//! expected to project, and the repository entries that they hold.
use crate::commit;
use crate::commit::{FileOperation, ParsedCommit, ParsedFile};
use crate::error::{git_error, CliError};
use crate::line_units::clone_bytes;
use crate::oid;
use crate::oid::{
    git_object_id, misfit_text, oid_bytes_as_hex, tagged_oid_from_hex, GitObjectId,
};
use crate::paths;
use crate::paths::PathMap;
use crate::push::GitHashAlgorithm;
use crate::text;
use crate::text::to_octal;
use vstd::prelude::*;
use vstd::utf8;

verus! {

/// The kind of object that a tree entry names.
#[derive(Clone, Copy, Debug, PartialEq, Eq, Structural)]
pub enum ObjectKind {
    Tree,
    Blob,
    Commit,
    Other,
}

/// An entry of a Git tree, with all that lies below it.
#[derive(Debug)]
pub struct TreeEntry {
    /// Its name, as Git stores it.
    pub name: Vec<u8>,
    /// Its name, as it is shown and kept.
    pub display: String,
    pub kind: ObjectKind,
    /// Its mode, as Git stores it.
    pub mode: u32,
    /// The id of its object.
    pub oid: Vec<u8>,
    /// Whether the conversion policy excludes its path.
    pub excluded: bool,
    /// The content of a blob.
    pub bytes: Vec<u8>,
    /// The entries of a tree.
    pub children: Vec<TreeEntry>,
}

/// Whether an import can preserve an entry of this kind and mode.
pub open spec fn supported(kind: ObjectKind, mode: u32) -> bool {
    match kind {
        ObjectKind::Tree => mode == 0o040000,
        ObjectKind::Blob => mode == 0o100644 || mode == 0o100755 || mode == 0o120000,
        ObjectKind::Commit => mode == 0o160000,
        ObjectKind::Other => false,
    }
}

/// The path of an entry below a prefix.
pub open spec fn path_below(prefix: Seq<char>, name: Seq<char>) -> Seq<char> {
    if prefix.len() == 0 {
        name
    } else {
        prefix + "/"@ + name
    }
}

/// Why an import refuses an entry.
pub open spec fn unsupported_text(mode: u32, path: Seq<char>) -> Seq<char> {
    "Git import cannot preserve required mode/kind 0o"@ + text::octal(mode as nat) + " at '"@ + path
        + "'"@
}

/// The first entry, depth first, that an import cannot preserve: why it is
/// refused.
pub open spec fn first_unsupported(entries: Seq<TreeEntry>, prefix: Seq<char>) -> Option<Seq<char>>
    decreases entries,
{
    if entries.len() == 0 {
        None
    } else {
        match first_unsupported(entries.drop_last(), prefix) {
            Some(m) => Some(m),
            None => {
                let e = entries.last();
                let path = path_below(prefix, e.display@);
                if !supported(e.kind, e.mode) {
                    Some(unsupported_text(e.mode, path))
                } else if e.kind == ObjectKind::Tree {
                    first_unsupported(e.children@, path)
                } else {
                    None
                }
            },
        }
    }
}

fn is_supported(kind: ObjectKind, mode: u32) -> (r: bool)
    ensures
        r == supported(kind, mode),
{
    match kind {
        ObjectKind::Tree => mode == 0o040000,
        ObjectKind::Blob => mode == 0o100644 || mode == 0o100755 || mode == 0o120000,
        ObjectKind::Commit => mode == 0o160000,
        ObjectKind::Other => false,
    }
}

proof fn lemma_unsupported_stays(entries: Seq<TreeEntry>, prefix: Seq<char>, n: int)
    requires
        0 <= n <= entries.len(),
        first_unsupported(entries.take(n), prefix) is Some,
    ensures
        first_unsupported(entries, prefix) == first_unsupported(entries.take(n), prefix),
    decreases entries.len() - n,
{
    if n == entries.len() {
        assert(entries.take(n) =~= entries);
    } else {
        assert(entries.take(n + 1).drop_last() =~= entries.take(n));
        lemma_unsupported_stays(entries, prefix, n + 1);
    }
}

/// Refuse a tree that holds an entry which an import cannot preserve.
pub fn validate_import_tree_capabilities(entries: &Vec<TreeEntry>, prefix: &str) -> (r: Result<
    (),
    CliError,
>)
    ensures
        match first_unsupported(entries@, prefix@) {
            Some(m) => r matches Err(e) && e.is_git_error(m),
            None => r is Ok,
        },
    decreases entries,
{
    let mut i: usize = 0;
    assert(entries@.take(0) =~= Seq::<TreeEntry>::empty());
    while i < entries.len()
        invariant
            i <= entries@.len(),
            first_unsupported(entries@.take(i as int), prefix@) is None,
        decreases entries@.len() - i,
    {
        let e: &TreeEntry = &entries[i];
        assert(entries@.take(i as int + 1).drop_last() =~= entries@.take(i as int));
        let mut path: String = prefix.to_owned();
        if prefix.is_empty() {
            path = e.display.clone();
        } else {
            path.append("/");
            path.append(&e.display);
        }
        assert(path@ == path_below(prefix@, e.display@));
        if !is_supported(e.kind, e.mode) {
            let mut m: String = "Git import cannot preserve required mode/kind 0o".to_owned();
            m.append(&to_octal(e.mode));
            m.append(" at '");
            m.append(&path);
            m.append("'");
            proof {
                lemma_unsupported_stays(entries@, prefix@, i as int + 1);
            }
            return Err(git_error(m));
        }
        if e.kind == ObjectKind::Tree {
            match validate_import_tree_capabilities(&e.children, &path) {
                Ok(_) => {},
                Err(x) => {
                    proof {
                        lemma_unsupported_stays(entries@, prefix@, i as int + 1);
                    }
                    return Err(x);
                },
            }
        }
        i += 1;
    }
    assert(entries@.take(entries@.len() as int) =~= entries@);
    Ok(())
}

/// One row of a tree object.
#[derive(Debug)]
pub struct TreeRow {
    pub name: Vec<u8>,
    pub mode: u32,
    pub oid: Vec<u8>,
    pub is_tree: bool,
}

/// A `TreeRow` as a value.
#[verifier::ext_equal]
pub struct RowView {
    pub name: Seq<u8>,
    pub mode: u32,
    pub oid: Seq<u8>,
    pub is_tree: bool,
}

impl View for TreeRow {
    type V = RowView;

    open spec fn view(&self) -> RowView {
        RowView { name: self.name@, mode: self.mode, oid: self.oid@, is_tree: self.is_tree }
    }
}

/// The views of a list of rows.
pub open spec fn row_views(v: Seq<TreeRow>) -> Seq<RowView> {
    v.map_values(|r: TreeRow| r@)
}

/// Byte order.
pub open spec fn bytes_less(a: Seq<u8>, b: Seq<u8>) -> bool
    decreases a.len(),
{
    if b.len() == 0 {
        false
    } else if a.len() == 0 {
        true
    } else if a[0] != b[0] {
        a[0] < b[0]
    } else {
        bytes_less(a.drop_first(), b.drop_first())
    }
}

/// The bytes by which Git orders a row: its name, with a slash behind that
/// of a tree.
pub open spec fn row_key(r: RowView) -> Seq<u8> {
    if r.is_tree {
        r.name.push(47)
    } else {
        r.name
    }
}

/// The rows with `r` behind the last one that it does not precede.
pub open spec fn with_row(rows: Seq<RowView>, r: RowView) -> Seq<RowView>
    decreases rows.len(),
{
    if rows.len() == 0 || !bytes_less(row_key(r), row_key(rows.last())) {
        rows.push(r)
    } else {
        with_row(rows.drop_last(), r).push(rows.last())
    }
}

/// The rows in Git's order.
pub open spec fn sorted_rows(rows: Seq<RowView>) -> Seq<RowView>
    decreases rows.len(),
{
    if rows.len() == 0 {
        seq![]
    } else {
        with_row(sorted_rows(rows.drop_last()), rows.last())
    }
}

/// The bytes of the tree object that holds these rows: for each its mode in
/// octal, a blank, its name, a zero byte and the id of its object.
pub open spec fn tree_bytes(rows: Seq<RowView>) -> Seq<u8>
    decreases rows.len(),
{
    if rows.len() == 0 {
        seq![]
    } else {
        let r = rows.last();
        tree_bytes(rows.drop_last()) + utf8::encode_utf8(text::octal(r.mode as nat) + " "@)
            + r.name + seq![0u8] + r.oid
    }
}

/// The id that Git gives to a tree object with these bytes; `None` for bytes
/// that it refuses to hash.
pub uninterp spec fn tree_object_id(bytes: Seq<u8>) -> Option<Seq<u8>>;

/// The id of a tree object under an algorithm. libgit2 hashes with SHA-1
/// alone.
pub open spec fn tree_id(bytes: Seq<u8>, a: GitHashAlgorithm) -> Option<Seq<u8>> {
    match a {
        GitHashAlgorithm::Sha1 => tree_object_id(bytes),
        GitHashAlgorithm::Sha256 => None,
    }
}

/// Why a tree has no expected id.
pub enum FoldFailure {
    /// An entry has an id of another algorithm.
    Misfit(Seq<u8>),
    /// A tree cannot be hashed.
    Unhashed,
}

/// The rows that are left of a tree without its excluded entries, or why
/// there are none. A subtree of which nothing is left is left out: Git has no
/// empty subtrees.
pub open spec fn kept_rows(entries: Seq<TreeEntry>, a: GitHashAlgorithm) -> Result<
    Seq<RowView>,
    FoldFailure,
>
    decreases entries,
{
    if entries.len() == 0 {
        Ok(seq![])
    } else {
        match kept_rows(entries.drop_last(), a) {
            Err(f) => Err(f),
            Ok(head) => {
                let e = entries.last();
                if e.excluded {
                    Ok(head)
                } else if e.kind == ObjectKind::Tree {
                    match kept_rows(e.children@, a) {
                        Err(f) => Err(f),
                        Ok(below) => if below.len() == 0 {
                            Ok(head)
                        } else {
                            match tree_id(tree_bytes(sorted_rows(below)), a) {
                                None => Err(FoldFailure::Unhashed),
                                Some(id) => Ok(
                                    head.push(
                                        RowView {
                                            name: e.name@,
                                            mode: 0o040000,
                                            oid: id,
                                            is_tree: true,
                                        },
                                    ),
                                ),
                            }
                        },
                    }
                } else if e.oid@.len() != oid::id_width(a) {
                    Err(FoldFailure::Misfit(e.oid@))
                } else {
                    Ok(
                        head.push(
                            RowView { name: e.name@, mode: e.mode, oid: e.oid@, is_tree: false },
                        ),
                    )
                }
            },
        }
    }
}

/// The id of the tree that is left without the excluded entries, or why it
/// has none.
pub open spec fn expected_tree(entries: Seq<TreeEntry>, a: GitHashAlgorithm) -> Result<
    Seq<u8>,
    FoldFailure,
> {
    match kept_rows(entries, a) {
        Err(f) => Err(f),
        Ok(rows) => match tree_id(tree_bytes(sorted_rows(rows)), a) {
            Some(id) => Ok(id),
            None => Err(FoldFailure::Unhashed),
        },
    }
}

/// Whether an error tells why a tree has no expected id.
pub open spec fn tells_failure(e: CliError, f: FoldFailure, a: GitHashAlgorithm) -> bool {
    match f {
        FoldFailure::Misfit(id) => e.is_git_error(
            "Git tree entry OID is invalid: "@ + oid::misfit_oid(id, a),
        ),
        FoldFailure::Unhashed => exists|detail: Seq<char>| #[trigger]
            e.is_git_error("cannot hash expected Git tree: "@ + detail),
    }
}

/// The id that `git2::Oid::hash_object` computes for a tree object with
/// these bytes, or the words of its error. Whether it succeeds, and the id of
/// twenty bytes where it does, is named after the bytes alone: nothing else
/// goes into it. The words of the error are not said.
#[verifier::external_body]
fn hash_tree(bytes: &Vec<u8>) -> (r: Result<Vec<u8>, String>)
    ensures
        match r {
            Ok(id) => tree_object_id(bytes@) == Some(id@) && id@.len() == 20,
            Err(_) => tree_object_id(bytes@) is None,
        },
{
    match git2::Oid::hash_object(git2::ObjectType::Tree, bytes) {
        Ok(oid) => Ok(oid.as_bytes().to_vec()),
        Err(e) => Err(e.to_string()),
    }
}

fn less_bytes(a: &Vec<u8>, b: &Vec<u8>) -> (r: bool)
    ensures
        r == bytes_less(a@, b@),
{
    let mut i: usize = 0;
    assert(a@.skip(0) =~= a@);
    assert(b@.skip(0) =~= b@);
    while i < a.len() && i < b.len() && a[i] == b[i]
        invariant
            i <= a@.len(),
            i <= b@.len(),
            bytes_less(a@.skip(i as int), b@.skip(i as int)) == bytes_less(a@, b@),
        decreases a@.len() - i,
    {
        assert(a@.skip(i as int).drop_first() =~= a@.skip(i as int + 1));
        assert(b@.skip(i as int).drop_first() =~= b@.skip(i as int + 1));
        i += 1;
    }
    if i >= b.len() {
        false
    } else if i >= a.len() {
        true
    } else {
        assert(a@.skip(i as int)[0] == a@[i as int]);
        assert(b@.skip(i as int)[0] == b@[i as int]);
        a[i] < b[i]
    }
}

fn key_of(r: &TreeRow) -> (k: Vec<u8>)
    ensures
        k@ == row_key(r@),
{
    let mut k = clone_bytes(&r.name);
    if r.is_tree {
        k.push(47);
    }
    k
}

fn place_row(rows: &mut Vec<TreeRow>, r: TreeRow)
    ensures
        row_views(final(rows)@) == with_row(row_views(old(rows)@), r@),
{
    let ghost start = row_views(rows@);
    let ghost rv = r@;
    let key = key_of(&r);
    let mut i: usize = rows.len();
    let mut going: bool = true;
    assert(start.take(i as int) =~= start);
    assert(with_row(start.take(i as int), rv) + start.skip(i as int) =~= with_row(start, rv));
    while i > 0 && going
        invariant
            i <= rows@.len(),
            rows@ == old(rows)@,
            start == row_views(rows@),
            rv == r@,
            key@ == row_key(rv),
            with_row(start.take(i as int), rv) + start.skip(i as int) == with_row(start, rv),
            !going ==> i > 0 && !bytes_less(row_key(rv), row_key(start[i - 1])),
        decreases i + if going {
                1int
            } else {
                0int
            },
    {
        let ghost head = start.take(i as int);
        assert(head.last() == start[i - 1]);
        assert(start[i - 1] == rows@[i - 1]@);
        if less_bytes(&key, &key_of(&rows[i - 1])) {
            assert(head.drop_last() =~= start.take(i as int - 1));
            assert(with_row(start.take(i as int - 1), rv) + start.skip(i as int - 1) =~= with_row(
                head,
                rv,
            ) + start.skip(i as int));
            i -= 1;
        } else {
            going = false;
        }
    }
    let ghost head = start.take(i as int);
    assert(with_row(head, rv) =~= head.push(rv)) by {
        if i > 0 {
            assert(head.last() == start[i - 1]);
        }
    }
    rows.insert(i, r);
    assert(row_views(rows@) =~= head.push(rv) + start.skip(i as int));
}

/// The bytes of the tree object that holds these rows.
fn encode_rows(rows: Vec<TreeRow>) -> (r: Vec<u8>)
    ensures
        r@ == tree_bytes(sorted_rows(row_views(rows@))),
{
    let ghost all = row_views(rows@);
    let mut sorted: Vec<TreeRow> = Vec::new();
    let mut i: usize = 0;
    assert(all.take(0) =~= Seq::<RowView>::empty());
    assert(row_views(sorted@) =~= sorted_rows(all.take(0)));
    while i < rows.len()
        invariant
            i <= rows@.len(),
            all == row_views(rows@),
            row_views(sorted@) == sorted_rows(all.take(i as int)),
        decreases rows@.len() - i,
    {
        assert(all.take(i as int + 1).drop_last() =~= all.take(i as int));
        assert(all.take(i as int + 1).last() == rows@[i as int]@);
        let copy = TreeRow {
            name: clone_bytes(&rows[i].name),
            mode: rows[i].mode,
            oid: clone_bytes(&rows[i].oid),
            is_tree: rows[i].is_tree,
        };
        assert(copy@ =~= rows@[i as int]@);
        place_row(&mut sorted, copy);
        i += 1;
    }
    assert(all.take(rows@.len() as int) =~= all);
    let ghost sv = row_views(sorted@);
    let mut out: Vec<u8> = Vec::new();
    let mut k: usize = 0;
    assert(sv.take(0) =~= Seq::<RowView>::empty());
    while k < sorted.len()
        invariant
            k <= sorted@.len(),
            sv == row_views(sorted@),
            out@ == tree_bytes(sv.take(k as int)),
        decreases sorted@.len() - k,
    {
        assert(sv.take(k as int + 1).drop_last() =~= sv.take(k as int));
        assert(sv.take(k as int + 1).last() == sorted@[k as int]@);
        let ghost before = out@;
        let mut head = to_octal(sorted[k].mode);
        head.append(" ");
        let mut hb = clone_bytes(head.as_str().as_bytes());
        let mut name = clone_bytes(&sorted[k].name);
        let mut id = clone_bytes(&sorted[k].oid);
        let ghost hv = hb@;
        let ghost nv = name@;
        let ghost iv = id@;
        out.append(&mut hb);
        out.append(&mut name);
        out.push(0);
        out.append(&mut id);
        assert(out@ =~= before + hv + nv + seq![0u8] + iv);
        k += 1;
    }
    assert(sv.take(sorted@.len() as int) =~= sv);
    out
}

/// Hash a tree object.
fn hash_rows(rows: Vec<TreeRow>, a: GitHashAlgorithm) -> (r: Result<Vec<u8>, CliError>)
    ensures
        match tree_id(tree_bytes(sorted_rows(row_views(rows@))), a) {
            Some(id) => r matches Ok(x) && x@ == id && id.len() == oid::id_width(a),
            None => r matches Err(e) && tells_failure(e, FoldFailure::Unhashed, a),
        },
{
    let bytes = encode_rows(rows);
    let hashed = match a {
        GitHashAlgorithm::Sha1 => hash_tree(&bytes),
        GitHashAlgorithm::Sha256 => Err("libgit2 hashes no SHA-256 objects".to_owned()),
    };
    match hashed {
        Ok(id) => Ok(id),
        Err(detail) => {
            let mut m: String = "cannot hash expected Git tree: ".to_owned();
            m.append(&detail);
            let e = git_error(m);
            assert(e.is_git_error("cannot hash expected Git tree: "@ + detail@));
            Err(e)
        },
    }
}

proof fn lemma_fold_failure_stays(entries: Seq<TreeEntry>, a: GitHashAlgorithm, n: int)
    requires
        0 <= n <= entries.len(),
        kept_rows(entries.take(n), a) is Err,
    ensures
        kept_rows(entries, a) == kept_rows(entries.take(n), a),
    decreases entries.len() - n,
{
    if n == entries.len() {
        assert(entries.take(n) =~= entries);
    } else {
        assert(entries.take(n + 1).drop_last() =~= entries.take(n));
        lemma_fold_failure_stays(entries, a, n + 1);
    }
}

/// The rows that are left of a tree without its excluded entries.
fn fold_rows(entries: &Vec<TreeEntry>, a: GitHashAlgorithm) -> (r: Result<Vec<TreeRow>, CliError>)
    ensures
        match kept_rows(entries@, a) {
            Ok(rows) => r matches Ok(x) && row_views(x@) == rows,
            Err(f) => r matches Err(e) && tells_failure(e, f, a),
        },
    decreases entries,
{
    let mut out: Vec<TreeRow> = Vec::new();
    let mut i: usize = 0;
    assert(entries@.take(0) =~= Seq::<TreeEntry>::empty());
    assert(row_views(out@) =~= Seq::<RowView>::empty());
    while i < entries.len()
        invariant
            i <= entries@.len(),
            kept_rows(entries@.take(i as int), a) == Ok::<Seq<RowView>, FoldFailure>(
                row_views(out@),
            ),
        decreases entries@.len() - i,
    {
        let e: &TreeEntry = &entries[i];
        assert(entries@.take(i as int + 1).drop_last() =~= entries@.take(i as int));
        assert(entries@.take(i as int + 1).last() == *e);
        let ghost before = row_views(out@);
        if !e.excluded {
            if e.kind == ObjectKind::Tree {
                let below = match fold_rows(&e.children, a) {
                    Ok(b) => b,
                    Err(x) => {
                        proof {
                            lemma_fold_failure_stays(entries@, a, i as int + 1);
                        }
                        return Err(x);
                    },
                };
                assert(row_views(below@).len() == below@.len());
                if below.len() > 0 {
                    let id = match hash_rows(below, a) {
                        Ok(id) => id,
                        Err(x) => {
                            proof {
                                lemma_fold_failure_stays(entries@, a, i as int + 1);
                            }
                            return Err(x);
                        },
                    };
                    let row = TreeRow {
                        name: clone_bytes(&e.name),
                        mode: 0o040000,
                        oid: id,
                        is_tree: true,
                    };
                    let ghost rv = row@;
                    out.push(row);
                    assert(row_views(out@) =~= before.push(rv));
                }
            } else {
                let id = match git_object_id(a, clone_bytes(&e.oid)) {
                    Ok(id) => id,
                    Err(_) => {
                        proof {
                            lemma_fold_failure_stays(entries@, a, i as int + 1);
                        }
                        let mut m: String = "Git tree entry OID is invalid: ".to_owned();
                        m.append(&misfit_text(&e.oid, a));
                        return Err(git_error(m));
                    },
                };
                let row = TreeRow {
                    name: clone_bytes(&e.name),
                    mode: e.mode,
                    oid: id.bytes,
                    is_tree: false,
                };
                let ghost rv = row@;
                out.push(row);
                assert(row_views(out@) =~= before.push(rv));
            }
        }
        i += 1;
    }
    assert(entries@.take(entries@.len() as int) =~= entries@);
    Ok(out)
}

/// The id of the tree that an import is expected to project: the Git tree
/// without the entries that the conversion policy excludes.
pub fn import_expected_tree_oid(entries: &Vec<TreeEntry>, a: GitHashAlgorithm) -> (r: Result<
    GitObjectId,
    CliError,
>)
    ensures
        match expected_tree(entries@, a) {
            Ok(id) => r matches Ok(x) && x.wf() && x@ == (oid::ObjectIdView {
                algorithm: a,
                bytes: id,
            }),
            Err(f) => r matches Err(e) && tells_failure(e, f, a),
        },
{
    let rows = match fold_rows(entries, a) {
        Ok(rows) => rows,
        Err(e) => {
            return Err(e);
        },
    };
    match hash_rows(rows, a) {
        Ok(bytes) => Ok(GitObjectId { algorithm: a, bytes }),
        Err(e) => Err(e),
    }
}

/// Whether nothing in a tree is excluded, and no subtree is empty.
pub open spec fn untouched(entries: Seq<TreeEntry>) -> bool
    decreases entries,
{
    entries.len() > 0 ==> untouched(entries.drop_last()) && !entries.last().excluded && (
    entries.last().kind == ObjectKind::Tree ==> entries.last().children@.len() > 0 && untouched(
        entries.last().children@,
    ))
}

/// Where nothing is excluded, every entry of a tree has its row, in turn.
pub proof fn nothing_else_is_left_out(entries: Seq<TreeEntry>, a: GitHashAlgorithm)
    requires
        untouched(entries),
        kept_rows(entries, a) is Ok,
    ensures
        kept_rows(entries, a)->Ok_0.len() == entries.len(),
        forall|i: int|
            0 <= i < entries.len() ==> (#[trigger] kept_rows(entries, a)->Ok_0[i]).name
                == entries[i].name@,
    decreases entries,
{
    if entries.len() > 0 {
        let head = entries.drop_last();
        nothing_else_is_left_out(head, a);
        let e = entries.last();
        if e.kind == ObjectKind::Tree {
            nothing_else_is_left_out(e.children@, a);
        }
        assert forall|i: int| 0 <= i < entries.len() implies (#[trigger] kept_rows(
            entries,
            a,
        )->Ok_0[i]).name == entries[i].name@ by {
            if i < entries.len() - 1 {
                assert(kept_rows(head, a)->Ok_0[i].name == head[i].name@);
            }
        }
    }
}

/// The kind of a repository entry.
#[derive(Clone, Copy, Debug, PartialEq, Eq, Structural)]
pub enum InodeKind {
    Regular,
    Symlink,
    Gitlink,
}

/// An entry of a repository.
#[derive(Debug)]
pub struct RepositoryEntry {
    pub path: String,
    pub bytes: Vec<u8>,
    pub mode: u32,
    pub kind: InodeKind,
    pub gitlink: Option<GitObjectId>,
    pub excluded: bool,
}

/// A `RepositoryEntry` as a value.
#[verifier::ext_equal]
pub struct EntryView {
    pub path: Seq<char>,
    pub bytes: Seq<u8>,
    pub mode: u32,
    pub kind: InodeKind,
    pub gitlink: Option<oid::ObjectIdView>,
    pub excluded: bool,
}

/// The view of an optional object id.
pub open spec fn opt_oid(o: Option<GitObjectId>) -> Option<oid::ObjectIdView> {
    match o {
        Some(i) => Some(i@),
        None => None,
    }
}

impl View for RepositoryEntry {
    type V = EntryView;

    open spec fn view(&self) -> EntryView {
        EntryView {
            path: self.path@,
            bytes: self.bytes@,
            mode: self.mode,
            kind: self.kind,
            gitlink: opt_oid(self.gitlink),
            excluded: self.excluded,
        }
    }
}

/// The kind and the repository mode of a Git mode.
pub open spec fn kind_and_mode(mode: u32) -> Option<(InodeKind, u32)> {
    if mode == 0o100644 {
        Some((InodeKind::Regular, 0o644))
    } else if mode == 0o100755 {
        Some((InodeKind::Regular, 0o755))
    } else if mode == 0o120000 {
        Some((InodeKind::Symlink, 0o777))
    } else if mode == 0o160000 {
        Some((InodeKind::Gitlink, 0o644))
    } else {
        None
    }
}

/// The kind and the repository mode of a Git mode.
pub fn repository_mode(mode: u32) -> (r: Option<(InodeKind, u32)>)
    ensures
        r == kind_and_mode(mode),
{
    if mode == 0o100644 {
        Some((InodeKind::Regular, 0o644))
    } else if mode == 0o100755 {
        Some((InodeKind::Regular, 0o755))
    } else if mode == 0o120000 {
        Some((InodeKind::Symlink, 0o777))
    } else if mode == 0o160000 {
        Some((InodeKind::Gitlink, 0o644))
    } else {
        None
    }
}

/// The repository entry of a file or a submodule, or why there is none. A
/// submodule carries the hexadecimal text of the commit that it names.
pub open spec fn blob_entry(e: TreeEntry, prefix: Seq<char>, a: GitHashAlgorithm) -> Result<
    EntryView,
    Seq<char>,
> {
    match kind_and_mode(e.mode) {
        Some((kind, mode)) => if kind == InodeKind::Gitlink && e.oid@.len() != oid::id_width(a) {
            Err(oid::misfit_oid(e.oid@, a))
        } else {
            Ok(
                EntryView {
                    path: prefix + e.display@,
                    bytes: if kind == InodeKind::Gitlink {
                        utf8::encode_utf8(oid::hex_text(e.oid@))
                    } else {
                        e.bytes@
                    },
                    mode,
                    kind,
                    gitlink: if kind == InodeKind::Gitlink {
                        Some(oid::ObjectIdView { algorithm: a, bytes: e.oid@ })
                    } else {
                        None
                    },
                    excluded: e.excluded,
                },
            )
        },
        None => Err(
            "unsupported parent-tree Git mode 0o"@ + text::octal(e.mode as nat) + " at '"@
                + e.display@ + "'"@,
        ),
    }
}

/// Whether an entry names the commit of a submodule.
pub open spec fn is_submodule(e: TreeEntry) -> bool {
    e.kind == ObjectKind::Commit && e.mode == 0o160000
}

/// The repository entries of one directory, or why there are none.
pub open spec fn level_entries(
    entries: Seq<TreeEntry>,
    prefix: Seq<char>,
    a: GitHashAlgorithm,
) -> Result<
    Seq<EntryView>,
    Seq<char>,
>
    decreases entries.len(),
{
    if entries.len() == 0 {
        Ok(seq![])
    } else {
        match level_entries(entries.drop_last(), prefix, a) {
            Err(m) => Err(m),
            Ok(head) => {
                let e = entries.last();
                if e.kind == ObjectKind::Tree {
                    Ok(head)
                } else if e.kind == ObjectKind::Blob || is_submodule(e) {
                    match blob_entry(e, prefix, a) {
                        Ok(v) => Ok(head.push(v)),
                        Err(m) => Err(m),
                    }
                } else {
                    Err("Git tree entry '"@ + e.display@ + "' has an unsupported object kind"@)
                }
            },
        }
    }
}

/// The repository entries of a tree, or why there are none: those of the
/// directory itself, then those of its subtrees from the last to the first.
pub open spec fn tree_entries(
    entries: Seq<TreeEntry>,
    prefix: Seq<char>,
    a: GitHashAlgorithm,
) -> Result<
    Seq<EntryView>,
    Seq<char>,
>
    decreases entries, 1nat,
{
    match level_entries(entries, prefix, a) {
        Err(m) => Err(m),
        Ok(own) => match subtree_entries(entries, prefix, a) {
            Err(m) => Err(m),
            Ok(below) => Ok(own + below),
        },
    }
}

/// The repository entries below the subtrees of a directory.
pub open spec fn subtree_entries(
    entries: Seq<TreeEntry>,
    prefix: Seq<char>,
    a: GitHashAlgorithm,
) -> Result<
    Seq<EntryView>,
    Seq<char>,
>
    decreases entries, 0nat,
{
    if entries.len() == 0 {
        Ok(seq![])
    } else {
        let e = entries.last();
        let here: Result<Seq<EntryView>, Seq<char>> = if e.kind == ObjectKind::Tree {
            tree_entries(e.children@, prefix + e.display@ + "/"@, a)
        } else {
            Ok(seq![])
        };
        match here {
            Err(m) => Err(m),
            Ok(v) => match subtree_entries(entries.drop_last(), prefix, a) {
                Err(m) => Err(m),
                Ok(rest) => Ok(v + rest),
            },
        }
    }
}

proof fn lemma_level_error_stays(
    entries: Seq<TreeEntry>,
    prefix: Seq<char>,
    a: GitHashAlgorithm,
    n: int,
)
    requires
        0 <= n <= entries.len(),
        level_entries(entries.take(n), prefix, a) is Err,
    ensures
        level_entries(entries, prefix, a) == level_entries(entries.take(n), prefix, a),
    decreases entries.len() - n,
{
    if n == entries.len() {
        assert(entries.take(n) =~= entries);
    } else {
        assert(entries.take(n + 1).drop_last() =~= entries.take(n));
        lemma_level_error_stays(entries, prefix, a, n + 1);
    }
}

/// The views of a list of entries.
pub open spec fn entry_views(v: Seq<RepositoryEntry>) -> Seq<EntryView> {
    v.map_values(|e: RepositoryEntry| e@)
}

fn entry_of_blob(e: &TreeEntry, prefix: &str, a: GitHashAlgorithm) -> (r: Result<
    RepositoryEntry,
    CliError,
>)
    ensures
        match blob_entry(*e, prefix@, a) {
            Ok(v) => r matches Ok(x) && x@ == v,
            Err(m) => r matches Err(x) && x.is_git_error(m),
        },
{
    match repository_mode(e.mode) {
        Some((kind, mode)) => {
            let (bytes, gitlink): (Vec<u8>, Option<GitObjectId>) = if kind == InodeKind::Gitlink {
                match git_object_id(a, clone_bytes(&e.oid)) {
                    Ok(id) => (oid_bytes_as_hex(&id), Some(id)),
                    Err(x) => {
                        return Err(x);
                    },
                }
            } else {
                (clone_bytes(&e.bytes), None)
            };
            let mut path: String = prefix.to_owned();
            path.append(&e.display);
            Ok(
                RepositoryEntry {
                    path,
                    bytes,
                    mode,
                    kind,
                    gitlink,
                    excluded: e.excluded,
                },
            )
        },
        None => {
            let mut m: String = "unsupported parent-tree Git mode 0o".to_owned();
            m.append(&to_octal(e.mode));
            m.append(" at '");
            m.append(&e.display);
            m.append("'");
            Err(git_error(m))
        },
    }
}

fn entries_of_level(entries: &Vec<TreeEntry>, prefix: &str, a: GitHashAlgorithm) -> (r: Result<
    Vec<RepositoryEntry>,
    CliError,
>)
    ensures
        match level_entries(entries@, prefix@, a) {
            Ok(v) => r matches Ok(x) && entry_views(x@) == v,
            Err(m) => r matches Err(x) && x.is_git_error(m),
        },
{
    let mut out: Vec<RepositoryEntry> = Vec::new();
    let mut i: usize = 0;
    assert(entries@.take(0) =~= Seq::<TreeEntry>::empty());
    assert(entry_views(out@) =~= Seq::<EntryView>::empty());
    while i < entries.len()
        invariant
            i <= entries@.len(),
            level_entries(entries@.take(i as int), prefix@, a) == Ok::<
                Seq<EntryView>,
                Seq<char>,
            >(entry_views(out@)),
        decreases entries@.len() - i,
    {
        let e: &TreeEntry = &entries[i];
        assert(entries@.take(i as int + 1).drop_last() =~= entries@.take(i as int));
        let ghost before = entry_views(out@);
        assert(entries@.take(i as int + 1).last() == *e);
        if e.kind == ObjectKind::Blob || (e.kind == ObjectKind::Commit && e.mode == 0o160000) {
            match entry_of_blob(e, prefix, a) {
                Ok(v) => {
                    let ghost vv = v@;
                    out.push(v);
                    assert(entry_views(out@) =~= before.push(vv));
                },
                Err(x) => {
                    proof {
                        lemma_level_error_stays(entries@, prefix@, a, i as int + 1);
                    }
                    return Err(x);
                },
            }
        } else if e.kind != ObjectKind::Tree {
            let mut m: String = "Git tree entry '".to_owned();
            m.append(&e.display);
            m.append("' has an unsupported object kind");
            proof {
                lemma_level_error_stays(entries@, prefix@, a, i as int + 1);
            }
            return Err(git_error(m));
        }
        i += 1;
    }
    assert(entries@.take(entries@.len() as int) =~= entries@);
    Ok(out)
}

/// What the subtrees behind place `n` hold, before the rest.
spec fn from_the_back(
    done: Seq<EntryView>,
    rest: Result<Seq<EntryView>, Seq<char>>,
) -> Result<Seq<EntryView>, Seq<char>> {
    match rest {
        Err(m) => Err(m),
        Ok(v) => Ok(done + v),
    }
}

/// The repository entries of a Git tree: files with their content, mode and
/// kind, submodules with the text of the commit that they name. Anything else
/// but a subtree is refused.
pub fn repository_entries_from_git_tree(
    entries: &Vec<TreeEntry>,
    prefix: &str,
    a: GitHashAlgorithm,
) -> (r: Result<Vec<RepositoryEntry>, CliError>)
    ensures
        match tree_entries(entries@, prefix@, a) {
            Ok(v) => r matches Ok(x) && entry_views(x@) == v,
            Err(m) => r matches Err(x) && x.is_git_error(m),
        },
    decreases entries,
{
    let mut out = match entries_of_level(entries, prefix, a) {
        Ok(v) => v,
        Err(x) => {
            return Err(x);
        },
    };
    let ghost own = entry_views(out@);
    let ghost all = subtree_entries(entries@, prefix@, a);
    let ghost mut done: Seq<EntryView> = seq![];
    let mut i: usize = entries.len();
    proof {
        assert(entries@.take(entries@.len() as int) =~= entries@);
        match all {
            Ok(v) => {
                assert(done + v =~= v);
            },
            Err(_) => {},
        }
        assert(own + done =~= own);
    }
    while i > 0
        invariant
            i <= entries@.len(),
            all == from_the_back(done, subtree_entries(entries@.take(i as int), prefix@, a)),
            all == subtree_entries(entries@, prefix@, a),
            level_entries(entries@, prefix@, a) == Ok::<Seq<EntryView>, Seq<char>>(own),
            entry_views(out@) == own + done,
        decreases i,
    {
        i -= 1;
        let e: &TreeEntry = &entries[i];
        let ghost rest = subtree_entries(entries@.take(i as int), prefix@, a);
        assert(entries@.take(i as int + 1).drop_last() =~= entries@.take(i as int));
        assert(entries@.take(i as int + 1).last() == *e);
        if e.kind == ObjectKind::Tree {
            let mut path: String = prefix.to_owned();
            path.append(&e.display);
            path.append("/");
            match repository_entries_from_git_tree(&e.children, &path, a) {
                Err(x) => {
                    return Err(x);
                },
                Ok(below) => {
                    let mut below = below;
                    let ghost bv = entry_views(below@);
                    let ghost raw = out@;
                    let ghost mid = below@;
                    out.append(&mut below);
                    assert(out@ =~= raw + mid);
                    assert(entry_views(out@) =~= entry_views(raw) + bv);
                    assert(entry_views(out@) =~= own + (done + bv));
                    proof {
                        match rest {
                            Ok(v) => {
                                assert(done + (bv + v) =~= (done + bv) + v);
                            },
                            Err(_) => {},
                        }
                        done = done + bv;
                    }
                },
            }
        } else {
            proof {
                match rest {
                    Ok(v) => {
                        assert(Seq::<EntryView>::empty() + v =~= v);
                    },
                    Err(_) => {},
                }
            }
        }
    }
    proof {
        assert(entries@.take(0) =~= Seq::<TreeEntry>::empty());
        assert(done + Seq::<EntryView>::empty() =~= done);
    }
    Ok(out)
}

/// What the conversion policy says of the paths of a changed file.
#[derive(Debug)]
pub struct PathVerdict {
    /// Why the path is invalid, if it is.
    pub invalid: Option<String>,
    /// Why the old path is invalid, if it is.
    pub old_invalid: Option<String>,
    /// Whether the policy excludes the path.
    pub excluded: bool,
}

/// The prospective entries of a repository, by path.
#[derive(Debug)]
pub struct ProspectiveTree {
    pub entries: PathMap<RepositoryEntry>,
}

/// The entries of a map, by view.
pub open spec fn entry_map(m: Map<Seq<char>, RepositoryEntry>) -> Map<Seq<char>, EntryView> {
    Map::new(|k: Seq<char>| m.contains_key(k), |k: Seq<char>| m[k]@)
}

impl View for ProspectiveTree {
    type V = Map<Seq<char>, EntryView>;

    open spec fn view(&self) -> Map<Seq<char>, EntryView> {
        entry_map(self.entries@)
    }
}

/// The target of a submodule entry, or why it has none.
pub open spec fn gitlink_target(path: Seq<char>, bytes: Seq<u8>) -> Result<
    oid::ObjectIdView,
    Seq<char>,
> {
    let refusal = "invalid gitlink target '"@ + path + "'"@;
    if utf8::valid_utf8(bytes) {
        match oid::oid_of_hex(bytes) {
            Some(id) => Ok(id),
            None => Err(refusal),
        }
    } else {
        Err(refusal + ": "@ + utf8_complaint(bytes))
    }
}

/// The entry that a changed file becomes, or why it becomes none.
pub open spec fn file_entry(
    f: commit::ParsedFileView,
    excluded: bool,
    sha: Seq<char>,
) -> Result<EntryView, Seq<char>> {
    match f.new_content {
        None => Err("commit "@ + sha + " omitted bytes for '"@ + f.path + "'"@),
        Some(bytes) => match f.new_mode {
            None => Err("commit "@ + sha + " omitted mode for '"@ + f.path + "'"@),
            Some(mode) => match kind_and_mode(mode) {
                None => Err(
                    "unsupported prospective Git mode 0o"@ + text::octal(mode as nat) + " at '"@
                        + f.path + "'"@,
                ),
                Some((kind, repository_mode)) => if kind == InodeKind::Gitlink {
                    match gitlink_target(f.path, bytes) {
                        Ok(id) => Ok(
                            EntryView {
                                path: f.path,
                                bytes,
                                mode: repository_mode,
                                kind,
                                gitlink: Some(id),
                                excluded,
                            },
                        ),
                        Err(m) => Err(m),
                    }
                } else {
                    Ok(
                        EntryView {
                            path: f.path,
                            bytes,
                            mode: repository_mode,
                            kind,
                            gitlink: None,
                            excluded,
                        },
                    )
                },
            },
        },
    }
}

/// Why a path is refused.
pub open spec fn invalid_path(path: Seq<char>, why: Seq<char>) -> Seq<char> {
    "invalid Git path '"@ + path + "': "@ + why
}

/// The entries after one changed file, or why the commit is refused.
pub open spec fn after_file(
    entries: Map<Seq<char>, EntryView>,
    f: commit::ParsedFileView,
    v: PathVerdict,
    sha: Seq<char>,
) -> Result<Map<Seq<char>, EntryView>, Seq<char>> {
    let moved = f.operation == FileOperation::Renamed && f.old_path is Some;
    if moved && v.old_invalid is Some {
        Err(invalid_path(f.old_path->0, v.old_invalid->0@))
    } else {
        let kept = if moved {
            entries.remove(f.old_path->0)
        } else {
            entries
        };
        if v.invalid is Some {
            Err(invalid_path(f.path, v.invalid->0@))
        } else if f.operation == FileOperation::Deleted {
            Ok(kept.remove(f.path))
        } else {
            match file_entry(f, v.excluded, sha) {
                Ok(e) => Ok(kept.insert(f.path, e)),
                Err(m) => Err(m),
            }
        }
    }
}

/// The entries after a list of changed files, in turn, or why the commit is
/// refused.
pub open spec fn after_files(
    entries: Map<Seq<char>, EntryView>,
    fs: Seq<commit::ParsedFileView>,
    vs: Seq<PathVerdict>,
    sha: Seq<char>,
) -> Result<Map<Seq<char>, EntryView>, Seq<char>>
    decreases fs.len(),
{
    if fs.len() == 0 {
        Ok(entries)
    } else {
        match after_files(entries, fs.drop_last(), vs, sha) {
            Ok(m) => after_file(m, fs.last(), vs[fs.len() - 1], sha),
            Err(e) => Err(e),
        }
    }
}

/// Whether the submodule targets of a commit can be read.
pub open spec fn gitlinks_fit(parsed: ParsedCommit) -> bool {
    forall|k: int| 0 <= k < parsed.files@.len() ==> gitlink_fits(#[trigger] parsed.files@[k]@)
}

/// Whether a submodule target can be read: an odd number of digits cannot.
pub open spec fn gitlink_fits(f: commit::ParsedFileView) -> bool {
    f.new_mode == Some(0o160000u32) && f.new_content is Some ==> {
        let b = f.new_content->0;
        b.len() % 2 == 0 || !oid::all_hex(b)
    }
}

/// What is said of bytes that are not UTF-8.
pub uninterp spec fn utf8_complaint(bytes: Seq<u8>) -> Seq<char>;

/// The text that `std::str::from_utf8` reads from bytes, or the words of its
/// error where they are not UTF-8. The words are named after the bytes
/// alone.
#[verifier::external_body]
fn read_utf8(bytes: &Vec<u8>) -> (r: Result<String, String>)
    ensures
        match r {
            Ok(s) => utf8::encode_utf8(s@) == bytes@,
            Err(d) => !utf8::valid_utf8(bytes@) && d@ == utf8_complaint(bytes@),
        },
{
    match std::str::from_utf8(bytes) {
        Ok(s) => Ok(s.to_owned()),
        Err(e) => Err(e.to_string()),
    }
}

/// The object id that a submodule entry names.
fn read_gitlink(path: &String, bytes: &Vec<u8>) -> (r: Result<GitObjectId, CliError>)
    requires
        bytes@.len() % 2 == 0 || !oid::all_hex(bytes@),
    ensures
        match gitlink_target(path@, bytes@) {
            Ok(v) => r matches Ok(id) && id@ == v,
            Err(m) => r matches Err(e) && e.is_git_error(m),
        },
{
    let mut m: String = "invalid gitlink target '".to_owned();
    m.append(path);
    m.append("'");
    match read_utf8(bytes) {
        Ok(s) => {
            proof {
                utf8::encode_utf8_valid_utf8(s@);
            }
            match tagged_oid_from_hex(&s) {
                Some(id) => Ok(id),
                None => Err(git_error(m)),
            }
        },
        Err(d) => {
            m.append(": ");
            m.append(&d);
            Err(git_error(m))
        },
    }
}

/// The entry that a changed file becomes.
fn entry_of_file(file: &ParsedFile, excluded: bool, sha: &str) -> (r: Result<
    RepositoryEntry,
    CliError,
>)
    requires
        gitlink_fits(file@),
    ensures
        match file_entry(file@, excluded, sha@) {
            Ok(v) => r matches Ok(e) && e@ == v,
            Err(m) => r matches Err(e) && e.is_git_error(m),
        },
{
    let bytes: &Vec<u8> = match &file.new_content {
        Some(b) => b,
        None => {
            let mut m: String = "commit ".to_owned();
            m.append(sha);
            m.append(" omitted bytes for '");
            m.append(&file.path);
            m.append("'");
            return Err(git_error(m));
        },
    };
    let mode: u32 = match file.new_mode {
        Some(mode) => mode,
        None => {
            let mut m: String = "commit ".to_owned();
            m.append(sha);
            m.append(" omitted mode for '");
            m.append(&file.path);
            m.append("'");
            return Err(git_error(m));
        },
    };
    let (kind, kept) = match repository_mode(mode) {
        Some(p) => p,
        None => {
            let mut m: String = "unsupported prospective Git mode 0o".to_owned();
            m.append(&to_octal(mode));
            m.append(" at '");
            m.append(&file.path);
            m.append("'");
            return Err(git_error(m));
        },
    };
    let gitlink: Option<GitObjectId> = if kind == InodeKind::Gitlink {
        match read_gitlink(&file.path, bytes) {
            Ok(id) => Some(id),
            Err(e) => {
                return Err(e);
            },
        }
    } else {
        None
    };
    Ok(
        RepositoryEntry {
            path: file.path.clone(),
            bytes: clone_bytes(bytes),
            mode: kept,
            kind,
            gitlink,
            excluded,
        },
    )
}

/// Refuse a path.
fn refuse_path(path: &String, why: &String) -> (r: CliError)
    ensures
        r.is_git_error(invalid_path(path@, why@)),
{
    let mut m: String = "invalid Git path '".to_owned();
    m.append(path);
    m.append("': ");
    m.append(why);
    git_error(m)
}

proof fn lemma_fold_error_stays(
    entries: Map<Seq<char>, EntryView>,
    fs: Seq<commit::ParsedFileView>,
    vs: Seq<PathVerdict>,
    sha: Seq<char>,
    n: int,
)
    requires
        0 <= n <= fs.len(),
        after_files(entries, fs.take(n), vs, sha) is Err,
    ensures
        after_files(entries, fs, vs, sha) == after_files(entries, fs.take(n), vs, sha),
    decreases fs.len() - n,
{
    if n == fs.len() {
        assert(fs.take(n) =~= fs);
    } else {
        assert(fs.take(n + 1).drop_last() =~= fs.take(n));
        lemma_fold_error_stays(entries, fs, vs, sha, n + 1);
    }
}

/// The map of a list of entries, later ones over earlier ones.
pub open spec fn mapped(es: Seq<EntryView>) -> Map<Seq<char>, EntryView>
    decreases es.len(),
{
    if es.len() == 0 {
        Map::empty()
    } else {
        mapped(es.drop_last()).insert(es.last().path, es.last())
    }
}

/// Why a commit cannot be applied without its parent's state.
pub open spec fn no_parent_state() -> Seq<char> {
    "commit's parent tree is not cached and no Git object database is available to reconstruct it; refusing to fold a prospective state from stale ambient entries"@
}

/// The state that a commit starts from: nothing for a root, the known state
/// of its parent tree, or else the entries `read` from that tree.
pub open spec fn parent_entries(
    known: Map<Seq<char>, Map<Seq<char>, EntryView>>,
    parent: Option<Seq<char>>,
    read: Option<Seq<EntryView>>,
) -> Result<Map<Seq<char>, EntryView>, Seq<char>> {
    match parent {
        None => Ok(Map::empty()),
        Some(tree) => if known.contains_key(tree) {
            Ok(known[tree])
        } else {
            match read {
                Some(es) => Ok(mapped(es)),
                None => Err(no_parent_state()),
            }
        },
    }
}

/// The parent tree of a commit, where its state is not known.
pub open spec fn unknown_parent(
    known: Map<Seq<char>, Map<Seq<char>, EntryView>>,
    parent: Option<Seq<char>>,
) -> Option<Seq<char>> {
    match parent {
        Some(tree) => if known.contains_key(tree) {
            None
        } else {
            Some(tree)
        },
        None => None,
    }
}

/// The prospective entries after a commit, or why it is refused.
pub open spec fn applied(
    known: Map<Seq<char>, Map<Seq<char>, EntryView>>,
    parent: Option<Seq<char>>,
    read: Option<Seq<EntryView>>,
    fs: Seq<commit::ParsedFileView>,
    vs: Seq<PathVerdict>,
    sha: Seq<char>,
) -> Result<Map<Seq<char>, EntryView>, Seq<char>> {
    match parent_entries(known, parent, read) {
        Ok(m) => after_files(m, fs, vs, sha),
        Err(m) => Err(m),
    }
}

impl ProspectiveTree {
    /// No path is held twice.
    pub open spec fn wf(&self) -> bool {
        self.entries.wf()
    }

    /// The empty state.
    pub fn new() -> (r: ProspectiveTree)
        ensures
            r.wf(),
            r@ == Map::<Seq<char>, EntryView>::empty(),
    {
        let r = ProspectiveTree { entries: PathMap::new() };
        assert(r@ =~= Map::<Seq<char>, EntryView>::empty());
        r
    }

    /// The state made up of a list of entries.
    fn of_entries(es: Vec<RepositoryEntry>) -> (r: ProspectiveTree)
        ensures
            r.wf(),
            r@ == mapped(entry_views(es@)),
    {
        let ghost all = entry_views(es@);
        let mut rest = es;
        let mut back: Vec<RepositoryEntry> = Vec::new();
        let ghost raw = rest@;
        while rest.len() > 0
            invariant
                raw == rest@ + back@.reverse(),
            decreases rest@.len(),
        {
            let ghost r0 = rest@;
            let ghost b0 = back@;
            if let Some(e) = rest.pop() {
                back.push(e);
                assert(rest@ + back@.reverse() =~= r0 + b0.reverse());
            }
        }
        assert(raw =~= back@.reverse());
        let mut t = ProspectiveTree::new();
        let ghost mut n: int = 0;
        assert(all.take(0) =~= Seq::<EntryView>::empty());
        while back.len() > 0
            invariant
                t.wf(),
                all == entry_views(raw),
                0 <= n <= raw.len(),
                back@.reverse() == raw.skip(n),
                t@ == mapped(all.take(n)),
            decreases back@.len(),
        {
            let ghost b0 = back@;
            let ghost before = t@;
            if let Some(e) = back.pop() {
                assert(b0.reverse()[0] == e);
                assert(b0.reverse().len() == b0.len());
                assert(raw.skip(n).len() > 0);
                assert(raw.skip(n)[0] == raw[n]);
                assert(all[n] == e@);
                let ghost ev = e@;
                assert(back@.reverse() =~= b0.reverse().drop_first());
                assert(raw.skip(n).drop_first() =~= raw.skip(n + 1));
                t.entries.insert(e.path.clone(), e);
                assert(t@ =~= before.insert(ev.path, ev));
                assert(all.take(n + 1).drop_last() =~= all.take(n));
                proof {
                    n = n + 1;
                }
            }
        }
        assert(raw.skip(n).len() == 0);
        assert(all.take(n) =~= all);
        t
    }

    /// Take in one changed file.
    fn take_file(&mut self, file: &ParsedFile, v: &PathVerdict, sha: &str) -> (r: Result<
        (),
        CliError,
    >)
        requires
            old(self).wf(),
            gitlink_fits(file@),
        ensures
            final(self).wf(),
            match after_file(old(self)@, file@, *v, sha@) {
                Ok(m) => r is Ok && final(self)@ == m,
                Err(m) => r matches Err(e) && e.is_git_error(m),
            },
    {
        let ghost before = self@;
        if file.operation == FileOperation::Renamed {
            if let Some(old_path) = &file.old_path {
                if let Some(why) = &v.old_invalid {
                    return Err(refuse_path(old_path, why));
                }
                let gone = self.entries.remove(old_path);
                assert(self@ =~= before.remove(old_path@));
            }
        }
        let ghost kept = self@;
        if let Some(why) = &v.invalid {
            return Err(refuse_path(&file.path, why));
        }
        if file.operation == FileOperation::Deleted {
            let gone = self.entries.remove(&file.path);
            assert(self@ =~= kept.remove(file.path@));
            return Ok(());
        }
        match entry_of_file(file, v.excluded, sha) {
            Ok(e) => {
                let ghost ev = e@;
                self.entries.insert(file.path.clone(), e);
                assert(self@ =~= kept.insert(file.path@, ev));
                Ok(())
            },
            Err(e) => Err(e),
        }
    }

    /// Take in the files that a commit changed, in turn.
    fn take_files(
        &mut self,
        files: &Vec<ParsedFile>,
        verdicts: &Vec<PathVerdict>,
        sha: &str,
    ) -> (r: Result<(), CliError>)
        requires
            old(self).wf(),
            files@.len() == verdicts@.len(),
            forall|k: int| 0 <= k < files@.len() ==> gitlink_fits(#[trigger] files@[k]@),
        ensures
            final(self).wf(),
            match after_files(old(self)@, commit::file_views(files@), verdicts@, sha@) {
                Ok(m) => r is Ok && final(self)@ == m,
                Err(m) => r matches Err(e) && e.is_git_error(m),
            },
    {
        let ghost start = self@;
        let ghost fs = commit::file_views(files@);
        let mut i: usize = 0;
        assert(fs.take(0) =~= Seq::<commit::ParsedFileView>::empty());
        while i < files.len()
            invariant
                i <= files@.len(),
                self.wf(),
                files@.len() == verdicts@.len(),
                fs == commit::file_views(files@),
                forall|k: int| 0 <= k < files@.len() ==> gitlink_fits(#[trigger] files@[k]@),
                start == old(self)@,
                after_files(start, fs.take(i as int), verdicts@, sha@) == Ok::<
                    Map<Seq<char>, EntryView>,
                    Seq<char>,
                >(self@),
            decreases files@.len() - i,
        {
            assert(fs.take(i as int + 1).drop_last() =~= fs.take(i as int));
            assert(fs.take(i as int + 1).last() == files@[i as int]@);
            assert(gitlink_fits(files@[i as int]@));
            match self.take_file(&files[i], &verdicts[i], sha) {
                Ok(_) => {},
                Err(e) => {
                    proof {
                        lemma_fold_error_stays(start, fs, verdicts@, sha@, i as int + 1);
                    }
                    return Err(e);
                },
            }
            i += 1;
        }
        assert(fs.take(files@.len() as int) =~= fs);
        Ok(())
    }

    /// The same state once more.
    pub fn copied(&self) -> (r: ProspectiveTree)
        requires
            self.wf(),
        ensures
            r.wf(),
            r@ == self@,
    {
        let own: &Vec<(String, RepositoryEntry)> = &self.entries.entries;
        let mut out: Vec<(String, RepositoryEntry)> = Vec::new();
        let mut i: usize = 0;
        while i < own.len()
            invariant
                i <= own@.len(),
                out@.len() == i,
                forall|k: int|
                    0 <= k < i ==> (#[trigger] out@[k]).0@ == own@[k].0@ && out@[k].1@
                        == own@[k].1@,
            decreases own@.len() - i,
        {
            out.push((own[i].0.clone(), copy_entry(&own[i].1)));
            i += 1;
        }
        let r = ProspectiveTree { entries: PathMap { entries: out } };
        let ghost a = own@;
        let ghost b = out@;
        assert forall|x: int, y: int| 0 <= x < y < b.len() implies (#[trigger] b[x]).0@ != (
        #[trigger] b[y]).0@ by {
            assert(a[x].0@ != a[y].0@);
        }
        let ghost mine = self@;
        let ghost theirs = r@;
        assert forall|k: Seq<char>| paths::has_entry(a, k) == paths::has_entry(b, k) && (
        paths::has_entry(a, k) ==> #[trigger] theirs[k] == mine[k]) by {
            if paths::has_entry(a, k) {
                let x = paths::entry_index(a, k);
                assert(b[x].0@ == k);
                let y = paths::entry_index(b, k);
                assert(0 <= y < b.len() && b[y].0@ == k);
                assert(a[y].0@ == k);
                assert(x == y);
            }
            if paths::has_entry(b, k) {
                let y = paths::entry_index(b, k);
                assert(a[y].0@ == k);
            }
        }
        assert forall|k: Seq<char>| #[trigger] theirs.dom().contains(k) == mine.dom().contains(k) by {
            assert(theirs[k] == mine[k] || !paths::has_entry(a, k));
        }
        assert(theirs.dom() =~= mine.dom());
        assert(r@ =~= self@);
        r
    }
}

/// An entry once more.
pub fn copy_entry(e: &RepositoryEntry) -> (r: RepositoryEntry)
    ensures
        r@ == e@,
{
    let gitlink: Option<GitObjectId> = match &e.gitlink {
        Some(id) => Some(GitObjectId { algorithm: id.algorithm, bytes: clone_bytes(&id.bytes) }),
        None => None,
    };
    let r = RepositoryEntry {
        path: e.path.clone(),
        bytes: clone_bytes(&e.bytes),
        mode: e.mode,
        kind: e.kind,
        gitlink,
        excluded: e.excluded,
    };
    assert(r@ =~= e@);
    r
}

/// The prospective state while commits are applied, with the states that are
/// known of Git trees.
#[derive(Debug)]
pub struct ProspectiveProjectTree {
    pub tree: ProspectiveTree,
    /// What each known tree holds, by the tree's id.
    pub manifests: PathMap<ProspectiveTree>,
}

/// A `ProspectiveProjectTree` as a value.
#[verifier::ext_equal]
pub struct ProjectView {
    pub entries: Map<Seq<char>, EntryView>,
    pub manifests: Map<Seq<char>, Map<Seq<char>, EntryView>>,
}

/// The states in a map, by view.
pub open spec fn state_map(m: Map<Seq<char>, ProspectiveTree>) -> Map<
    Seq<char>,
    Map<Seq<char>, EntryView>,
> {
    Map::new(|k: Seq<char>| m.contains_key(k), |k: Seq<char>| m[k]@)
}

impl View for ProspectiveProjectTree {
    type V = ProjectView;

    open spec fn view(&self) -> ProjectView {
        ProjectView { entries: self.tree@, manifests: state_map(self.manifests@) }
    }
}

/// The state before any commit is applied: what the target view projects, if
/// anything.
pub open spec fn started(current: Option<(String, Vec<RepositoryEntry>)>) -> ProjectView {
    match current {
        Some((tree, es)) => ProjectView {
            entries: mapped(entry_views(es@)),
            manifests: Map::empty().insert(tree@, mapped(entry_views(es@))),
        },
        None => ProjectView { entries: Map::empty(), manifests: Map::empty() },
    }
}

impl ProspectiveProjectTree {
    /// No path is held twice, in any state.
    pub open spec fn wf(&self) -> bool {
        &&& self.tree.wf()
        &&& self.manifests.wf()
        &&& forall|k: Seq<char>|
            self.manifests@.contains_key(k) ==> (#[trigger] self.manifests@[k]).wf()
    }

    /// Start from what the target view projects, if anything: the id of its
    /// tree, and its entries.
    pub fn new(current: Option<(String, Vec<RepositoryEntry>)>) -> (r: ProspectiveProjectTree)
        ensures
            r.wf(),
            r@ == started(current),
    {
        let mut manifests: PathMap<ProspectiveTree> = PathMap::new();
        assert(state_map(manifests@) =~= Map::empty());
        match current {
            Some((tree, es)) => {
                let held = ProspectiveTree::of_entries(es);
                let ghost hv = held@;
                let copy = held.copied();
                manifests.insert(tree, copy);
                let r = ProspectiveProjectTree { tree: held, manifests };
                assert(r@.manifests =~= Map::empty().insert(tree@, hv));
                r
            },
            None => {
                let r = ProspectiveProjectTree { tree: ProspectiveTree::new(), manifests };
                assert(r@ =~= (ProjectView { entries: Map::empty(), manifests: Map::empty() }));
                r
            },
        }
    }

    /// The Git tree that has to be read before a commit can be applied: its
    /// parent's, where that is not known.
    pub fn missing_tree(&self, parsed: &ParsedCommit) -> (r: Option<String>)
        requires
            self.wf(),
        ensures
            text::opt_text(r) == unknown_parent(
                self@.manifests,
                text::opt_text(parsed.parent_tree_oid),
            ),
    {
        match &parsed.parent_tree_oid {
            Some(t) => if self.manifests.contains_key(t) {
                None
            } else {
                Some(t.clone())
            },
            None => None,
        }
    }

    /// Apply a commit: start from the state of its first parent, and take in
    /// the files that it changed, in turn. `read` holds the entries of the
    /// parent's Git tree where they were read.
    pub fn apply_commit(
        &mut self,
        parsed: &ParsedCommit,
        read: Option<Vec<RepositoryEntry>>,
        verdicts: &Vec<PathVerdict>,
    ) -> (r: Result<(), CliError>)
        requires
            old(self).wf(),
            parsed.files@.len() == verdicts@.len(),
            gitlinks_fit(*parsed),
        ensures
            final(self).wf(),
            final(self).manifests == old(self).manifests,
            match applied(
                old(self)@.manifests,
                text::opt_text(parsed.parent_tree_oid),
                opt_entries(read),
                commit::file_views(parsed.files@),
                verdicts@,
                parsed.git_sha@,
            ) {
                Ok(m) => r is Ok && final(self)@.entries == m,
                Err(m) => *final(self) == *old(self) && (r matches Err(e) && e.is_git_error(m)),
            },
    {
        let mut start = match &parsed.parent_tree_oid {
            None => ProspectiveTree::new(),
            Some(t) => match self.manifests.get(t) {
                Some(held) => held.copied(),
                None => match read {
                    Some(es) => ProspectiveTree::of_entries(es),
                    None => {
                        return Err(
                            git_error(
                                "commit's parent tree is not cached and no Git object database is available to reconstruct it; refusing to fold a prospective state from stale ambient entries".to_owned(),
                            ),
                        );
                    },
                },
            },
        };
        match start.take_files(&parsed.files, verdicts, &parsed.git_sha) {
            Ok(_) => {
                self.tree = start;
                Ok(())
            },
            Err(e) => Err(e),
        }
    }

    /// What the state holds at a path.
    pub fn entry(&self, path: &str) -> (r: Option<RepositoryEntry>)
        requires
            self.wf(),
        ensures
            opt_entry(r) == entry_at(self@.entries, path@),
    {
        match self.tree.entries.get(path) {
            Some(e) => Some(copy_entry(e)),
            None => None,
        }
    }

    /// Keep the state as that of a Git tree.
    pub fn keep(&mut self, tree: &str)
        requires
            old(self).wf(),
        ensures
            final(self).wf(),
            final(self)@ == (ProjectView {
                entries: old(self)@.entries,
                manifests: old(self)@.manifests.insert(tree@, old(self)@.entries),
            }),
    {
        let ghost before = self@;
        let ghost was = self.manifests@;
        let copy = self.tree.copied();
        let ghost held = copy;
        self.manifests.insert(tree.to_owned(), copy);
        assert(self.manifests@ == was.insert(tree@, held));
        assert(self@.manifests =~= before.manifests.insert(tree@, before.entries));
    }
}

/// What a state holds at a path.
pub open spec fn entry_at(m: Map<Seq<char>, EntryView>, path: Seq<char>) -> Option<EntryView> {
    if m.contains_key(path) {
        Some(m[path])
    } else {
        None
    }
}

/// The view of an entry, where there is one.
pub open spec fn opt_entry(e: Option<RepositoryEntry>) -> Option<EntryView> {
    match e {
        Some(x) => Some(x@),
        None => None,
    }
}

/// The entries that were read, if they were.
pub open spec fn opt_entries(o: Option<Vec<RepositoryEntry>>) -> Option<Seq<EntryView>> {
    match o {
        Some(es) => Some(entry_views(es@)),
        None => None,
    }
}

/// Whether a file of a commit touches a path.
pub open spec fn touches(f: commit::ParsedFileView, path: Seq<char>) -> bool {
    f.path == path || (f.operation == FileOperation::Renamed && f.old_path == Some(path))
}

/// Whether two states hold the same at a path.
spec fn agree_at(
    a: Map<Seq<char>, EntryView>,
    b: Map<Seq<char>, EntryView>,
    path: Seq<char>,
) -> bool {
    a.contains_key(path) == b.contains_key(path) && (a.contains_key(path) ==> a[path] == b[path])
}

/// Whether a list of files is refused does not depend on the state before,
/// nor does what it leaves at a path that it touches.
proof fn lemma_files_decide(
    a: Map<Seq<char>, EntryView>,
    b: Map<Seq<char>, EntryView>,
    fs: Seq<commit::ParsedFileView>,
    vs: Seq<PathVerdict>,
    sha: Seq<char>,
    path: Seq<char>,
)
    requires
        after_files(a, fs, vs, sha) is Ok,
    ensures
        after_files(b, fs, vs, sha) is Ok,
        agree_at(a, b, path) || (exists|i: int| 0 <= i < fs.len() && touches(#[trigger] fs[i], path))
            ==> agree_at(
            after_files(a, fs, vs, sha)->Ok_0,
            after_files(b, fs, vs, sha)->Ok_0,
            path,
        ),
    decreases fs.len(),
{
    if fs.len() > 0 {
        let head = fs.drop_last();
        let f = fs.last();
        lemma_files_decide(a, b, head, vs, sha, path);
        if !touches(f, path) && (exists|i: int|
            0 <= i < fs.len() && touches(#[trigger] fs[i], path)) {
            let i = choose|i: int| 0 <= i < fs.len() && touches(#[trigger] fs[i], path);
            assert(touches(head[i], path));
        }
    }
}

/// Taking in the same files once more changes nothing.
proof fn lemma_files_again(
    entries: Map<Seq<char>, EntryView>,
    fs: Seq<commit::ParsedFileView>,
    vs: Seq<PathVerdict>,
    sha: Seq<char>,
)
    requires
        after_files(entries, fs, vs, sha) is Ok,
    ensures
        after_files(after_files(entries, fs, vs, sha)->Ok_0, fs, vs, sha) == after_files(
            entries,
            fs,
            vs,
            sha,
        ),
{
    let once = after_files(entries, fs, vs, sha)->Ok_0;
    lemma_files_decide(entries, once, fs, vs, sha, seq![]);
    let twice = after_files(once, fs, vs, sha)->Ok_0;
    assert forall|path: Seq<char>| #[trigger] agree_at(once, twice, path) by {
        if !(exists|i: int| 0 <= i < fs.len() && touches(#[trigger] fs[i], path)) {
            untouched_paths_carry_over(entries, fs, vs, sha, path);
            assert(agree_at(entries, once, path));
        }
        lemma_files_decide(entries, once, fs, vs, sha, path);
    }
    assert(once =~= twice) by {
        assert forall|path: Seq<char>| once.dom().contains(path) == twice.dom().contains(path) by {
            assert(agree_at(once, twice, path));
        }
        assert(once.dom() =~= twice.dom());
        assert forall|path: Seq<char>| once.dom().contains(path) implies once[path]
            == twice[path] by {
            assert(agree_at(once, twice, path));
        }
    }
}

/// Applying a commit once more to the same prospective state gives the same
/// entries, also where the state that it left was kept as that of its tree.
pub proof fn a_commit_applied_again_leaves_the_same(
    known: Map<Seq<char>, Map<Seq<char>, EntryView>>,
    tree: Seq<char>,
    parent: Option<Seq<char>>,
    read: Option<Seq<EntryView>>,
    fs: Seq<commit::ParsedFileView>,
    vs: Seq<PathVerdict>,
    sha: Seq<char>,
)
    requires
        applied(known, parent, read, fs, vs, sha) is Ok,
    ensures
        ({
            let first = applied(known, parent, read, fs, vs, sha);
            applied(known.insert(tree, first->Ok_0), parent, read, fs, vs, sha) == first
        }),
{
    if parent == Some(tree) {
        lemma_files_again(parent_entries(known, parent, read)->Ok_0, fs, vs, sha);
    }
}

/// A parent's state that is kept stands for its Git tree: with it, a commit
/// leaves what it leaves when the tree is read.
pub proof fn a_kept_state_stands_for_its_tree(
    known: Map<Seq<char>, Map<Seq<char>, EntryView>>,
    parent: Seq<char>,
    es: Seq<EntryView>,
    fs: Seq<commit::ParsedFileView>,
    vs: Seq<PathVerdict>,
    sha: Seq<char>,
)
    requires
        !known.contains_key(parent),
    ensures
        applied(known.insert(parent, mapped(es)), Some(parent), None, fs, vs, sha) == applied(
            known,
            Some(parent),
            Some(es),
            fs,
            vs,
            sha,
        ),
{
}

/// What a commit does not touch stays: a path that none of its files touches
/// is held, or not held, as before.
pub proof fn untouched_paths_carry_over(
    entries: Map<Seq<char>, EntryView>,
    fs: Seq<commit::ParsedFileView>,
    vs: Seq<PathVerdict>,
    sha: Seq<char>,
    path: Seq<char>,
)
    requires
        after_files(entries, fs, vs, sha) is Ok,
        forall|i: int| 0 <= i < fs.len() ==> !touches(#[trigger] fs[i], path),
    ensures
        ({
            let after = after_files(entries, fs, vs, sha)->Ok_0;
            &&& after.contains_key(path) == entries.contains_key(path)
            &&& entries.contains_key(path) ==> after[path] == entries[path]
        }),
    decreases fs.len(),
{
    if fs.len() > 0 {
        let head = fs.drop_last();
        assert(!touches(fs[fs.len() - 1], path));
        assert forall|i: int| 0 <= i < head.len() implies !touches(#[trigger] head[i], path) by {
            assert(!touches(fs[i], path));
        }
        untouched_paths_carry_over(entries, head, vs, sha, path);
    }
}

/// What a commit says of a path holds: after its files, the path of the last
/// file that touches it is gone where that file was deleted, and otherwise
/// holds that file's content, mode and kind.
pub proof fn touched_paths_hold_what_the_commit_says(
    entries: Map<Seq<char>, EntryView>,
    fs: Seq<commit::ParsedFileView>,
    vs: Seq<PathVerdict>,
    sha: Seq<char>,
    k: int,
)
    requires
        after_files(entries, fs, vs, sha) is Ok,
        0 <= k < fs.len(),
        forall|i: int| k < i < fs.len() ==> !touches(#[trigger] fs[i], fs[k].path),
    ensures
        ({
            let after = after_files(entries, fs, vs, sha)->Ok_0;
            let f = fs[k];
            if f.operation == FileOperation::Deleted {
                !after.contains_key(f.path)
            } else {
                after.contains_key(f.path) && file_entry(f, vs[k].excluded, sha) == Ok::<
                    EntryView,
                    Seq<char>,
                >(after[f.path])
            }
        }),
    decreases fs.len(),
{
    let head = fs.drop_last();
    if k < head.len() {
        assert(!touches(fs[fs.len() - 1], fs[k].path));
        assert forall|i: int| k < i < head.len() implies !touches(
            #[trigger] head[i],
            head[k].path,
        ) by {
            assert(!touches(fs[i], fs[k].path));
        }
        touched_paths_hold_what_the_commit_says(entries, head, vs, sha, k);
    }
}

proof fn lemma_bytes_order(a: Seq<u8>, b: Seq<u8>, c: Seq<u8>)
    ensures
        bytes_less(a, b) ==> !bytes_less(b, a),
        !bytes_less(b, a) && !bytes_less(c, b) ==> !bytes_less(c, a),
    decreases a.len(),
{
    if a.len() > 0 && b.len() > 0 && a[0] == b[0] {
        if c.len() > 0 {
            lemma_bytes_order(a.drop_first(), b.drop_first(), c.drop_first());
        } else {
            lemma_bytes_order(a.drop_first(), b.drop_first(), c);
        }
    }
}

/// Whether rows stand in Git's order: by the bytes of their names, where the
/// name of a tree counts with a slash behind it.
pub open spec fn in_git_order(rows: Seq<RowView>) -> bool {
    forall|i: int, j: int|
        0 <= i < j < rows.len() ==> !bytes_less(
            if rows[j].is_tree {
                rows[j].name + seq![47u8]
            } else {
                rows[j].name
            },
            if rows[i].is_tree {
                rows[i].name + seq![47u8]
            } else {
                rows[i].name
            },
        )
}

proof fn lemma_row_order(rows: Seq<RowView>)
    ensures
        in_git_order(rows) <==> forall|i: int, j: int|
            0 <= i < j < rows.len() ==> !bytes_less(
                row_key(#[trigger] rows[j]),
                row_key(#[trigger] rows[i]),
            ),
{
    assert forall|k: int| 0 <= k < rows.len() implies row_key(#[trigger] rows[k]) == (
    if rows[k].is_tree {
        rows[k].name + seq![47u8]
    } else {
        rows[k].name
    }) by {
        assert(rows[k].name.push(47) =~= rows[k].name + seq![47u8]);
    }
    if in_git_order(rows) {
        assert forall|i: int, j: int| 0 <= i < j < rows.len() implies !bytes_less(
            row_key(#[trigger] rows[j]),
            row_key(#[trigger] rows[i]),
        ) by {}
    }
}

proof fn lemma_with_row(rows: Seq<RowView>, r: RowView)
    requires
        in_git_order(rows),
    ensures
        in_git_order(with_row(rows, r)),
        with_row(rows, r).to_multiset() == rows.to_multiset().insert(r),
    decreases rows.len(),
{
    let w = with_row(rows, r);
    lemma_row_order(rows);
    lemma_row_order(w);
    rows.to_multiset_ensures();
    if rows.len() == 0 || !bytes_less(row_key(r), row_key(rows.last())) {
        assert(w.to_multiset() =~= rows.to_multiset().insert(r));
        assert forall|i: int, j: int| 0 <= i < j < w.len() implies !bytes_less(
            row_key(#[trigger] w[j]),
            row_key(#[trigger] w[i]),
        ) by {
            if j == rows.len() && i < rows.len() - 1 {
                lemma_bytes_order(row_key(rows[i]), row_key(rows[rows.len() - 1]), row_key(r));
            }
        }
    } else {
        let h = rows.drop_last();
        let z = rows.last();
        lemma_row_order(h);
        assert forall|i: int, j: int| 0 <= i < j < h.len() implies !bytes_less(
            row_key(#[trigger] h[j]),
            row_key(#[trigger] h[i]),
        ) by {
            assert(h[i] == rows[i] && h[j] == rows[j]);
        }
        lemma_with_row(h, r);
        let u = with_row(h, r);
        lemma_row_order(u);
        h.to_multiset_ensures();
        u.to_multiset_ensures();
        assert(rows =~= h.push(z));
        assert(w.to_multiset() =~= rows.to_multiset().insert(r));
        assert forall|i: int, j: int| 0 <= i < j < w.len() implies !bytes_less(
            row_key(#[trigger] w[j]),
            row_key(#[trigger] w[i]),
        ) by {
            assert(w[i] == u[i]);
            if j < u.len() {
                assert(w[j] == u[j]);
            } else if u[i] == r {
                lemma_bytes_order(row_key(r), row_key(z), row_key(z));
            } else {
                assert(u.to_multiset().count(u[i]) > 0) by {
                    assert(u.contains(u[i]));
                }
                assert(h.to_multiset().count(u[i]) > 0);
                assert(h.contains(u[i]));
                let k = choose|k: int| 0 <= k < h.len() && h[k] == u[i];
                assert(!bytes_less(row_key(rows[rows.len() - 1]), row_key(rows[k])));
            }
        }
    }
}

/// A tree object lists its rows in Git's order, all of them, none twice.
pub proof fn rows_are_in_git_order(rows: Seq<RowView>)
    ensures
        in_git_order(sorted_rows(rows)),
        sorted_rows(rows).to_multiset() == rows.to_multiset(),
    decreases rows.len(),
{
    rows.to_multiset_ensures();
    if rows.len() > 0 {
        let h = rows.drop_last();
        rows_are_in_git_order(h);
        lemma_with_row(sorted_rows(h), rows.last());
        h.to_multiset_ensures();
        assert(rows =~= h.push(rows.last()));
        assert(sorted_rows(rows).to_multiset() =~= rows.to_multiset());
    } else {
        assert(sorted_rows(rows) =~= rows);
    }
}

/// Where a trail of places leads in a tree: down through its directories.
pub open spec fn led_to(entries: Seq<TreeEntry>, trail: Seq<int>) -> Option<TreeEntry>
    decreases trail.len(),
{
    if trail.len() == 0 || !(0 <= trail[0] < entries.len()) {
        None
    } else if trail.len() == 1 {
        Some(entries[trail[0]])
    } else if entries[trail[0]].kind == ObjectKind::Tree {
        led_to(entries[trail[0]].children@, trail.drop_first())
    } else {
        None
    }
}

/// The names along a trail, put together as a path.
pub open spec fn trail_path(entries: Seq<TreeEntry>, trail: Seq<int>) -> Seq<char>
    decreases trail.len(),
{
    if trail.len() == 0 {
        seq![]
    } else if trail.len() == 1 {
        entries[trail[0]].display@
    } else {
        entries[trail[0]].display@ + seq!['/'] + trail_path(
            entries[trail[0]].children@,
            trail.drop_first(),
        )
    }
}

proof fn lemma_level_entry(entries: Seq<TreeEntry>, prefix: Seq<char>, a: GitHashAlgorithm, k: int)
    requires
        level_entries(entries, prefix, a) is Ok,
        0 <= k < entries.len(),
        entries[k].kind != ObjectKind::Tree,
    ensures
        blob_entry(entries[k], prefix, a) is Ok,
        level_entries(entries, prefix, a)->Ok_0.contains(blob_entry(entries[k], prefix, a)->Ok_0),
    decreases entries.len(),
{
    let h = entries.drop_last();
    let all = level_entries(entries, prefix, a)->Ok_0;
    let head = level_entries(h, prefix, a)->Ok_0;
    if k < h.len() {
        lemma_level_entry(h, prefix, a, k);
        let x = blob_entry(entries[k], prefix, a)->Ok_0;
        assert(h[k] == entries[k]);
        let j = choose|j: int| 0 <= j < head.len() && head[j] == x;
        assert(all[j] == x);
    } else {
        assert(all[head.len() as int] == blob_entry(entries[k], prefix, a)->Ok_0);
    }
}

proof fn lemma_subtree_entry(
    entries: Seq<TreeEntry>,
    prefix: Seq<char>,
    a: GitHashAlgorithm,
    k: int,
    x: EntryView,
)
    requires
        subtree_entries(entries, prefix, a) is Ok,
        0 <= k < entries.len(),
        entries[k].kind == ObjectKind::Tree,
        tree_entries(entries[k].children@, prefix + entries[k].display@ + "/"@, a) matches Ok(v)
            ==> v.contains(x),
    ensures
        tree_entries(entries[k].children@, prefix + entries[k].display@ + "/"@, a) is Ok,
        subtree_entries(entries, prefix, a)->Ok_0.contains(x),
    decreases entries.len(),
{
    let h = entries.drop_last();
    let all = subtree_entries(entries, prefix, a)->Ok_0;
    let rest = subtree_entries(h, prefix, a)->Ok_0;
    let n = all.len() - rest.len();
    if k < h.len() {
        assert(h[k] == entries[k]);
        lemma_subtree_entry(h, prefix, a, k, x);
        let j = choose|j: int| 0 <= j < rest.len() && rest[j] == x;
        assert(all[n + j] == x);
    } else {
        let v = tree_entries(entries[k].children@, prefix + entries[k].display@ + "/"@, a)->Ok_0;
        let j = choose|j: int| 0 <= j < v.len() && v[j] == x;
        assert(all[j] == x);
    }
}

proof fn lemma_subtree_ok(
    entries: Seq<TreeEntry>,
    prefix: Seq<char>,
    a: GitHashAlgorithm,
    k: int,
)
    requires
        subtree_entries(entries, prefix, a) is Ok,
        0 <= k < entries.len(),
        entries[k].kind == ObjectKind::Tree,
    ensures
        tree_entries(entries[k].children@, prefix + entries[k].display@ + "/"@, a) is Ok,
    decreases entries.len(),
{
    let h = entries.drop_last();
    if k < h.len() {
        assert(h[k] == entries[k]);
        lemma_subtree_ok(h, prefix, a, k);
    }
}

/// Every file of a tree has its entry: wherever a trail leads through the
/// directories to something that is none, the entries hold it, under the
/// names along the trail, with its kind and mode and what it holds.
pub proof fn every_file_has_its_entry(
    entries: Seq<TreeEntry>,
    prefix: Seq<char>,
    a: GitHashAlgorithm,
    trail: Seq<int>,
)
    requires
        tree_entries(entries, prefix, a) is Ok,
        led_to(entries, trail) matches Some(e) && e.kind != ObjectKind::Tree,
    ensures
        exists|j: int|
            0 <= j < tree_entries(entries, prefix, a)->Ok_0.len() && ({
                let x = #[trigger] tree_entries(entries, prefix, a)->Ok_0[j];
                let e = led_to(entries, trail)->0;
                &&& x.path == prefix + trail_path(entries, trail)
                &&& x.excluded == e.excluded
                &&& Some((x.kind, x.mode)) == kind_and_mode(e.mode)
                &&& x.kind != InodeKind::Gitlink ==> x.bytes == e.bytes@ && x.gitlink is None
                &&& x.kind == InodeKind::Gitlink ==> x.gitlink == Some(
                    oid::ObjectIdView { algorithm: a, bytes: e.oid@ },
                )
            }),
    decreases trail.len(),
{
    let own = level_entries(entries, prefix, a)->Ok_0;
    let below = subtree_entries(entries, prefix, a)->Ok_0;
    let all = tree_entries(entries, prefix, a)->Ok_0;
    let k = trail[0];
    let e = led_to(entries, trail)->0;
    if trail.len() == 1 {
        lemma_level_entry(entries, prefix, a, k);
        let x = blob_entry(e, prefix, a)->Ok_0;
        let j = choose|j: int| 0 <= j < own.len() && own[j] == x;
        assert(all[j] == x);
    } else {
        reveal_strlit("/");
        let d = entries[k];
        let rest = trail.drop_first();
        let deeper = prefix + d.display@ + "/"@;
        lemma_subtree_ok(entries, prefix, a, k);
        every_file_has_its_entry(d.children@, deeper, a, rest);
        let v = tree_entries(d.children@, deeper, a)->Ok_0;
        let i = choose|i: int|
            0 <= i < v.len() && ({
                let x = #[trigger] v[i];
                &&& x.path == deeper + trail_path(d.children@, rest)
                &&& x.excluded == e.excluded
                &&& Some((x.kind, x.mode)) == kind_and_mode(e.mode)
                &&& x.kind != InodeKind::Gitlink ==> x.bytes == e.bytes@ && x.gitlink is None
                &&& x.kind == InodeKind::Gitlink ==> x.gitlink == Some(
                    oid::ObjectIdView { algorithm: a, bytes: e.oid@ },
                )
            });
        let x = v[i];
        assert(v.contains(x));
        lemma_subtree_entry(entries, prefix, a, k, x);
        let j = choose|j: int| 0 <= j < below.len() && below[j] == x;
        assert("/"@ =~= seq!['/']);
        assert(deeper + trail_path(d.children@, rest) =~= prefix + trail_path(entries, trail));
        assert(all[own.len() + j] == x);
    }
}

/// A tree that is let through can be kept whole: wherever a trail leads, the
/// entry there is of a kind and a mode that an import preserves.
pub proof fn a_validated_tree_is_supported_throughout(
    entries: Seq<TreeEntry>,
    prefix: Seq<char>,
    trail: Seq<int>,
)
    requires
        first_unsupported(entries, prefix) is None,
        led_to(entries, trail) is Some,
    ensures
        supported(led_to(entries, trail)->0.kind, led_to(entries, trail)->0.mode),
    decreases trail.len(),
{
    let k = trail[0];
    lemma_all_supported(entries, prefix, k);
    if trail.len() > 1 {
        a_validated_tree_is_supported_throughout(
            entries[k].children@,
            path_below(prefix, entries[k].display@),
            trail.drop_first(),
        );
    }
}

proof fn lemma_all_supported(entries: Seq<TreeEntry>, prefix: Seq<char>, k: int)
    requires
        first_unsupported(entries, prefix) is None,
        0 <= k < entries.len(),
    ensures
        supported(entries[k].kind, entries[k].mode),
        entries[k].kind == ObjectKind::Tree ==> first_unsupported(
            entries[k].children@,
            path_below(prefix, entries[k].display@),
        ) is None,
    decreases entries.len(),
{
    let h = entries.drop_last();
    if k < h.len() {
        assert(h[k] == entries[k]);
        lemma_all_supported(h, prefix, k);
    }
}

/// What an import preserves it can write back: exactly the modes of files,
/// links and submodules have a kind and a repository mode, and no two of them
/// the same.
pub proof fn modes_stay_distinct(a: u32, b: u32)
    ensures
        kind_and_mode(a) is Some <==> supported(ObjectKind::Blob, a) || supported(
            ObjectKind::Commit,
            a,
        ),
        kind_and_mode(a) is Some && kind_and_mode(a) == kind_and_mode(b) ==> a == b,
{
}

/// What is excluded is left out of the expected tree and what is not is kept:
/// every row stands for an entry that is not excluded, and every file that
/// is not excluded has its row.
pub proof fn the_kept_rows_are_not_excluded(entries: Seq<TreeEntry>, a: GitHashAlgorithm, k: int)
    requires
        kept_rows(entries, a) is Ok,
    ensures
        0 <= k < kept_rows(entries, a)->Ok_0.len() ==> exists|i: int|
            0 <= i < entries.len() && !(#[trigger] entries[i]).excluded && entries[i].name@
                == kept_rows(entries, a)->Ok_0[k].name,
        0 <= k < entries.len() && !entries[k].excluded && entries[k].kind != ObjectKind::Tree
            ==> kept_rows(entries, a)->Ok_0.contains(
            RowView {
                name: entries[k].name@,
                mode: entries[k].mode,
                oid: entries[k].oid@,
                is_tree: false,
            },
        ),
    decreases entries.len(),
{
    if entries.len() > 0 {
        let h = entries.drop_last();
        let e = entries.last();
        let head = kept_rows(h, a)->Ok_0;
        let all = kept_rows(entries, a)->Ok_0;
        the_kept_rows_are_not_excluded(h, a, k);
        if 0 <= k < all.len() {
            if k < head.len() {
                assert(all[k] == head[k]);
                let i = choose|i: int|
                    0 <= i < h.len() && !(#[trigger] h[i]).excluded && h[i].name@ == head[k].name;
                assert(entries[i] == h[i]);
            } else {
                assert(!entries[entries.len() - 1].excluded);
            }
        }
        if 0 <= k < entries.len() && !entries[k].excluded && entries[k].kind
            != ObjectKind::Tree {
            let want = RowView {
                name: entries[k].name@,
                mode: entries[k].mode,
                oid: entries[k].oid@,
                is_tree: false,
            };
            if k < h.len() {
                assert(h[k] == entries[k]);
                let j = choose|j: int| 0 <= j < head.len() && head[j] == want;
                assert(all[j] == want);
            } else {
                assert(all[head.len() as int] == want);
            }
        }
    }
}

/// The bytes of one row of a tree object.
spec fn row_bytes(r: RowView) -> Seq<u8> {
    utf8::encode_utf8(text::octal(r.mode as nat) + " "@) + r.name + seq![0u8] + r.oid
}

proof fn lemma_row_first(r: RowView, rest: Seq<RowView>)
    ensures
        tree_bytes(seq![r] + rest) == row_bytes(r) + tree_bytes(rest),
    decreases rest.len(),
{
    let all = seq![r] + rest;
    if rest.len() == 0 {
        assert(all.drop_last() =~= seq![]);
        assert(tree_bytes(all.drop_last()) =~= seq![]);
        assert(tree_bytes(all) =~= row_bytes(r) + tree_bytes(rest));
    } else {
        assert(all.drop_last() =~= seq![r] + rest.drop_last());
        lemma_row_first(r, rest.drop_last());
        assert(tree_bytes(all) =~= row_bytes(r) + tree_bytes(rest));
    }
}

/// The mode of a row as bytes: octal digits, then a blank.
proof fn lemma_mode_bytes(mode: u32) -> (d: Seq<u8>)
    ensures
        utf8::encode_utf8(text::octal(mode as nat) + " "@) == d + seq![32u8],
        !d.contains(32),
        d.len() == text::octal(mode as nat).len(),
        forall|i: int| 0 <= i < d.len() ==> #[trigger] d[i] == text::octal(mode as nat)[i] as u8,
{
    reveal_strlit(" ");
    let o = text::octal(mode as nat);
    let s = o + " "@;
    text::octals_stand_for_their_number(mode as nat);
    assert(utf8::is_ascii_chars(s)) by {
        assert forall|i: int| 0 <= i < s.len() implies '\0' <= #[trigger] s[i] <= '\u{7f}' by {
            if i < o.len() {
                assert('0' <= o[i] <= '7');
            }
        }
    }
    utf8::is_ascii_chars_encode_utf8(s);
    let b = utf8::encode_utf8(s);
    let d = b.take(o.len() as int);
    assert(s[o.len() as int] == ' ');
    assert(b =~= d + seq![32u8]);
    assert forall|i: int| 0 <= i < d.len() implies #[trigger] d[i] == o[i] as u8 && d[i]
        != 32 by {
        assert(s[i] == o[i]);
        assert('0' <= o[i] <= '7');
    }
    d
}

proof fn lemma_same_mode(a: u32, b: u32, da: Seq<u8>, db: Seq<u8>)
    requires
        da == db,
        da.len() == text::octal(a as nat).len(),
        db.len() == text::octal(b as nat).len(),
        forall|i: int| 0 <= i < da.len() ==> #[trigger] da[i] == text::octal(a as nat)[i] as u8,
        forall|i: int| 0 <= i < db.len() ==> #[trigger] db[i] == text::octal(b as nat)[i] as u8,
    ensures
        a == b,
{
    let x = text::octal(a as nat);
    let y = text::octal(b as nat);
    text::octals_stand_for_their_number(a as nat);
    text::octals_stand_for_their_number(b as nat);
    assert forall|i: int| 0 <= i < x.len() implies x[i] == y[i] by {
        assert(da[i] == x[i] as u8);
        assert(db[i] == y[i] as u8);
        assert('0' <= x[i] <= '7');
        assert('0' <= y[i] <= '7');
    }
    assert(x =~= y);
}

proof fn lemma_cut(a: Seq<u8>, r: Seq<u8>, b: Seq<u8>, q: Seq<u8>, c: u8)
    requires
        !a.contains(c),
        !b.contains(c),
        a + seq![c] + r == b + seq![c] + q,
    ensures
        a == b,
        r == q,
{
    let s = a + seq![c] + r;
    let n = a.len() as int;
    assert(s[n] == c);
    assert(s[b.len() as int] == c);
    if n < b.len() {
        assert(b[n] == c);
    } else if b.len() < n {
        assert(a[b.len() as int] == c);
    }
    assert(s.take(n) =~= a);
    assert(s.take(n) =~= b);
    assert(s.skip(n + 1) =~= r);
    assert(s.skip(n + 1) =~= q);
}

/// Whether rows can stand in a tree object: their names hold no zero byte,
/// and their ids are as long as the algorithm's.
pub open spec fn rows_fit(rows: Seq<RowView>, width: nat) -> bool {
    forall|i: int|
        0 <= i < rows.len() ==> !(#[trigger] rows[i]).name.contains(0) && rows[i].oid.len()
            == width
}

/// Tree objects tell trees apart: two of them are the same only where they
/// hold the same names, modes and ids, in the same order.
pub proof fn different_rows_make_different_trees(a: Seq<RowView>, b: Seq<RowView>, width: nat)
    requires
        rows_fit(a, width),
        rows_fit(b, width),
        tree_bytes(a) == tree_bytes(b),
    ensures
        a.len() == b.len(),
        forall|i: int|
            0 <= i < a.len() ==> (#[trigger] a[i]).name == b[i].name && a[i].mode == b[i].mode
                && a[i].oid == b[i].oid,
    decreases a.len(),
{
    if a.len() == 0 || b.len() == 0 {
        if a.len() > 0 {
            assert(a =~= seq![a[0]] + a.drop_first());
            lemma_row_first(a[0], a.drop_first());
        }
        if b.len() > 0 {
            assert(b =~= seq![b[0]] + b.drop_first());
            lemma_row_first(b[0], b.drop_first());
        }
    } else {
        let x = a[0];
        let y = b[0];
        let ra = a.drop_first();
        let rb = b.drop_first();
        assert(a =~= seq![x] + ra);
        assert(b =~= seq![y] + rb);
        lemma_row_first(x, ra);
        lemma_row_first(y, rb);
        let da = lemma_mode_bytes(x.mode);
        let db = lemma_mode_bytes(y.mode);
        let ta = tree_bytes(ra);
        let tb = tree_bytes(rb);
        let ua = x.oid + ta;
        let ub = y.oid + tb;
        let va = x.name + seq![0u8] + ua;
        let vb = y.name + seq![0u8] + ub;
        assert(row_bytes(x) + ta =~= da + seq![32u8] + va);
        assert(row_bytes(y) + tb =~= db + seq![32u8] + vb);
        lemma_cut(da, va, db, vb, 32);
        lemma_same_mode(x.mode, y.mode, da, db);
        assert(!x.name.contains(0) && !y.name.contains(0));
        lemma_cut(x.name, ua, y.name, ub, 0);
        let w = width as int;
        assert(x.oid.len() == width && y.oid.len() == width);
        assert(ua.take(w) =~= x.oid);
        assert(ub.take(w) =~= y.oid);
        assert(ua.skip(w) =~= ta);
        assert(ub.skip(w) =~= tb);
        assert(rows_fit(ra, width)) by {
            assert forall|i: int| 0 <= i < ra.len() implies !(#[trigger] ra[i]).name.contains(0)
                && ra[i].oid.len() == width by {
                assert(ra[i] == a[i + 1]);
            }
        }
        assert(rows_fit(rb, width)) by {
            assert forall|i: int| 0 <= i < rb.len() implies !(#[trigger] rb[i]).name.contains(0)
                && rb[i].oid.len() == width by {
                assert(rb[i] == b[i + 1]);
            }
        }
        different_rows_make_different_trees(ra, rb, width);
        assert forall|i: int| 0 <= i < a.len() implies (#[trigger] a[i]).name == b[i].name
            && a[i].mode == b[i].mode && a[i].oid == b[i].oid by {
            if i > 0 {
                assert(a[i] == ra[i - 1]);
                assert(b[i] == rb[i - 1]);
            }
        }
    }
}

} // verus!
