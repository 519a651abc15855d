//! The change graph that an import writes: positions, edges and operations.
//!
//! Every type with a growable field has a view made of sequences, over which
//! the contracts of the builders speak.
use vstd::prelude::*;

verus! {

/// A content hash: its bytes, read as two big-endian numbers.
#[derive(Clone, Copy, Debug, PartialEq, Eq, Structural)]
pub struct ContentHash {
    pub hi: u128,
    pub lo: u128,
}

/// The hash that stands for "no change": the anchor of the root.
pub open spec fn no_hash() -> ContentHash {
    ContentHash { hi: 0, lo: 0 }
}

/// Order of the hash bytes.
pub open spec fn hash_less(a: ContentHash, b: ContentHash) -> bool {
    a.hi < b.hi || (a.hi == b.hi && a.lo < b.lo)
}

impl ContentHash {
    /// The hash that stands for "no change".
    pub fn none() -> (r: ContentHash)
        ensures
            r == no_hash(),
    {
        ContentHash { hi: 0, lo: 0 }
    }

    /// Order of the hash bytes.
    pub fn less(&self, other: &ContentHash) -> (r: bool)
        ensures
            r == hash_less(*self, *other),
    {
        self.hi < other.hi || (self.hi == other.hi && self.lo < other.lo)
    }
}

/// A position in a change; no change means the one under construction.
#[derive(Clone, Copy, Debug, PartialEq, Eq, Structural)]
pub struct Position {
    pub change: Option<ContentHash>,
    pub pos: u64,
}

/// The position of the root directory.
pub open spec fn root_position() -> Position {
    Position { change: Some(no_hash()), pos: 0 }
}

impl Position {
    /// The position of the root directory.
    pub fn root() -> (r: Position)
        ensures
            r == root_position(),
    {
        Position { change: Some(ContentHash::none()), pos: 0 }
    }
}

/// The hash that `p` makes its reader depend on, if any.
pub open spec fn position_hash(p: Position) -> Option<ContentHash> {
    match p.change {
        Some(h) => if h == no_hash() {
            None
        } else {
            Some(h)
        },
        None => None,
    }
}

/// The hash that `p` makes its reader depend on, if any: the root and the
/// change under construction are no dependencies.
pub fn position_hashes(p: &Position) -> (r: Option<ContentHash>)
    ensures
        r == position_hash(*p),
{
    match p.change {
        Some(h) => if h == ContentHash::none() {
            None
        } else {
            Some(h)
        },
        None => None,
    }
}

/// A span of content in a change.
#[derive(Clone, Copy, Debug, PartialEq, Eq, Structural)]
pub struct GraphNode {
    pub change: Option<ContentHash>,
    pub start: u64,
    pub end: u64,
}

/// What an edge says.
#[derive(Clone, Copy, Debug, PartialEq, Eq, Structural)]
pub struct EdgeFlags {
    pub folder: bool,
    pub block: bool,
    pub deleted: bool,
}

/// Flags of a line edge.
pub open spec fn block_edge() -> EdgeFlags {
    EdgeFlags { folder: false, block: true, deleted: false }
}

/// Flags of a name edge.
pub open spec fn folder_edge() -> EdgeFlags {
    EdgeFlags { folder: true, block: true, deleted: false }
}

/// The flags of an edge once it is deleted.
pub open spec fn deleted_edge(f: EdgeFlags) -> EdgeFlags {
    EdgeFlags { folder: f.folder, block: f.block, deleted: true }
}

impl EdgeFlags {
    /// Flags of a line edge.
    pub fn block_only() -> (r: EdgeFlags)
        ensures
            r == block_edge(),
    {
        EdgeFlags { folder: false, block: true, deleted: false }
    }

    /// Flags of a name edge.
    pub fn folder_block() -> (r: EdgeFlags)
        ensures
            r == folder_edge(),
    {
        EdgeFlags { folder: true, block: true, deleted: false }
    }

    /// The same edge, deleted.
    pub fn into_deleted(self) -> (r: EdgeFlags)
        ensures
            r == deleted_edge(self),
    {
        EdgeFlags { folder: self.folder, block: self.block, deleted: true }
    }
}

/// How the bytes of a file are to be read.
#[derive(Clone, Copy, Debug, PartialEq, Eq, Structural)]
pub enum Encoding {
    Utf8,
    Binary,
    /// Another text encoding, by its number.
    Other(u8),
}

/// New content hung between predecessors and successors.
#[derive(Debug)]
pub struct Insertion {
    pub predecessors: Vec<Position>,
    pub successors: Vec<Position>,
    pub flag: EdgeFlags,
    pub start: u64,
    pub end: u64,
    pub inode: Position,
}

/// An `Insertion` as a value.
pub struct InsertionView {
    pub predecessors: Seq<Position>,
    pub successors: Seq<Position>,
    pub flag: EdgeFlags,
    pub start: u64,
    pub end: u64,
    pub inode: Position,
}

impl View for Insertion {
    type V = InsertionView;

    open spec fn view(&self) -> InsertionView {
        InsertionView {
            predecessors: self.predecessors@,
            successors: self.successors@,
            flag: self.flag,
            start: self.start,
            end: self.end,
            inode: self.inode,
        }
    }
}

/// The view of an optional insertion.
pub open spec fn opt_insertion(o: Option<Insertion>) -> Option<InsertionView> {
    match o {
        Some(i) => Some(i@),
        None => None,
    }
}

/// A change of one existing edge.
#[derive(Clone, Copy, Debug, PartialEq, Eq, Structural)]
pub struct NewEdge {
    pub previous: EdgeFlags,
    pub flag: EdgeFlags,
    pub from: Position,
    pub to: GraphNode,
    pub introduced_by: Option<ContentHash>,
}

/// Changes of existing edges of one file.
#[derive(Debug)]
pub struct EdgeUpdate {
    pub edges: Vec<NewEdge>,
    pub inode: Position,
}

/// An `EdgeUpdate` as a value.
pub struct EdgeUpdateView {
    pub edges: Seq<NewEdge>,
    pub inode: Position,
}

impl View for EdgeUpdate {
    type V = EdgeUpdateView;

    open spec fn view(&self) -> EdgeUpdateView {
        EdgeUpdateView { edges: self.edges@, inode: self.inode }
    }
}

/// One elementary graph change.
#[derive(Debug)]
pub enum Atom {
    Insertion(Insertion),
    EdgeUpdate(EdgeUpdate),
}

/// An `Atom` as a value.
pub enum AtomView {
    Insertion(InsertionView),
    EdgeUpdate(EdgeUpdateView),
}

impl View for Atom {
    type V = AtomView;

    open spec fn view(&self) -> AtomView {
        match self {
            Atom::Insertion(i) => AtomView::Insertion(i@),
            Atom::EdgeUpdate(u) => AtomView::EdgeUpdate(u@),
        }
    }
}

/// One operation of a change.
#[allow(inconsistent_fields)]
#[derive(Debug)]
pub enum GraphOp {
    DirAdd { add_name: Insertion, add_inode: Insertion, path: String },
    FileAdd {
        add_name: Insertion,
        add_inode: Insertion,
        contents: Option<Insertion>,
        path: String,
        encoding: Option<Encoding>,
    },
    FileMove { del: EdgeUpdate, add: Insertion, path: String },
    Edit { change: Atom, path: String, line: u64, encoding: Option<Encoding> },
    Replacement {
        change: EdgeUpdate,
        replacement: Insertion,
        path: String,
        line: u64,
        encoding: Option<Encoding>,
    },
}

/// A `GraphOp` as a value.
#[allow(inconsistent_fields)]
pub enum GraphOpView {
    DirAdd { add_name: InsertionView, add_inode: InsertionView, path: Seq<char> },
    FileAdd {
        add_name: InsertionView,
        add_inode: InsertionView,
        contents: Option<InsertionView>,
        path: Seq<char>,
        encoding: Option<Encoding>,
    },
    FileMove { del: EdgeUpdateView, add: InsertionView, path: Seq<char> },
    Edit { change: AtomView, path: Seq<char>, line: u64, encoding: Option<Encoding> },
    Replacement {
        change: EdgeUpdateView,
        replacement: InsertionView,
        path: Seq<char>,
        line: u64,
        encoding: Option<Encoding>,
    },
}

impl View for GraphOp {
    type V = GraphOpView;

    open spec fn view(&self) -> GraphOpView {
        match self {
            GraphOp::DirAdd { add_name, add_inode, path } => GraphOpView::DirAdd {
                add_name: add_name@,
                add_inode: add_inode@,
                path: path@,
            },
            GraphOp::FileAdd { add_name, add_inode, contents, path, encoding } =>
                GraphOpView::FileAdd {
                add_name: add_name@,
                add_inode: add_inode@,
                contents: opt_insertion(*contents),
                path: path@,
                encoding: *encoding,
            },
            GraphOp::FileMove { del, add, path } => GraphOpView::FileMove {
                del: del@,
                add: add@,
                path: path@,
            },
            GraphOp::Edit { change, path, line, encoding } => GraphOpView::Edit {
                change: change@,
                path: path@,
                line: *line,
                encoding: *encoding,
            },
            GraphOp::Replacement { change, replacement, path, line, encoding } =>
                GraphOpView::Replacement {
                change: change@,
                replacement: replacement@,
                path: path@,
                line: *line,
                encoding: *encoding,
            },
        }
    }
}

/// The views of a list of operations.
pub open spec fn op_views(v: Seq<GraphOp>) -> Seq<GraphOpView> {
    v.map_values(|o: GraphOp| o@)
}

/// The byte sequences held by a list of byte strings.
pub open spec fn byte_views(v: Seq<Vec<u8>>) -> Seq<Seq<u8>> {
    v.map_values(|b: Vec<u8>| b@)
}

/// The bytes behind an optional byte string.
pub open spec fn opt_bytes(o: Option<Vec<u8>>) -> Option<Seq<u8>> {
    match o {
        Some(b) => Some(b@),
        None => None,
    }
}

/// Whether a list of hashes is in strictly rising order.
pub open spec fn hashes_rising(v: Seq<ContentHash>) -> bool {
    forall|i: int, j: int| 0 <= i < j < v.len() ==> hash_less(#[trigger] v[i], #[trigger] v[j])
}

/// Insert `h` into a rising list, once.
pub fn insert_hash(v: &mut Vec<ContentHash>, h: ContentHash)
    requires
        hashes_rising(old(v)@),
    ensures
        hashes_rising(final(v)@),
        final(v)@.to_set() == old(v)@.to_set().insert(h),
{
    let mut i: usize = 0;
    while i < v.len() && v[i].less(&h)
        invariant
            i <= v@.len(),
            v@ == old(v)@,
            forall|j: int| 0 <= j < i ==> hash_less(#[trigger] v@[j], h),
        decreases v@.len() - i,
    {
        i += 1;
    }
    if i < v.len() && v[i] == h {
        assert(v@.to_set() =~= old(v)@.to_set().insert(h)) by {
            assert(v@[i as int] == h);
        }
        return;
    }
    let ghost before = v@;
    v.insert(i, h);
    assert(v@ =~= before.insert(i as int, h));
    assert forall|a: int, b: int| 0 <= a < b < v@.len() implies hash_less(
        #[trigger] v@[a],
        #[trigger] v@[b],
    ) by {
        if a >= i && i < before.len() {
            if a > i {
                assert(hash_less(before[a - 1], before[b - 1]));
            } else if b - 1 > i {
                assert(hash_less(before[i as int], before[b - 1]));
            }
        } else if a < i && b > i {
            assert(hash_less(before[a], before[b - 1]));
        }
    }
    assert(v@.to_set() =~= before.to_set().insert(h)) by {
        assert forall|x: ContentHash| v@.to_set().contains(x) == before.to_set().insert(
            h,
        ).contains(x) by {
            if before.contains(x) {
                let k: int = choose|k: int| 0 <= k < before.len() && before[k] == x;
                if k < i {
                    assert(v@[k] == x);
                } else {
                    assert(v@[k + 1] == x);
                }
            }
            if x == h {
                assert(v@[i as int] == x);
            }
            if v@.contains(x) {
                let k: int = choose|k: int| 0 <= k < v@.len() && v@[k] == x;
                if k < i {
                    assert(before[k] == x);
                } else if k > i {
                    assert(before[k - 1] == x);
                }
            }
        }
    }
}

/// A rising list is determined by the hashes it holds.
pub proof fn lemma_rising_unique(a: Seq<ContentHash>, b: Seq<ContentHash>)
    requires
        hashes_rising(a),
        hashes_rising(b),
        a.to_set() == b.to_set(),
    ensures
        a == b,
    decreases a.len(),
{
    if a.len() == 0 {
        if b.len() > 0 {
            assert(b.to_set().contains(b[0]));
            assert(a.to_set().contains(b[0]));
        }
        assert(a =~= b);
    } else {
        assert(a.to_set().contains(a.last()));
        assert(b.to_set().contains(a.last()));
        let j: int = choose|j: int| 0 <= j < b.len() && b[j] == a.last();
        assert(b.to_set().contains(b.last()));
        assert(a.to_set().contains(b.last()));
        let i: int = choose|i: int| 0 <= i < a.len() && a[i] == b.last();
        if j < b.len() - 1 {
            assert(hash_less(b[j], b[b.len() - 1]));
            if i < a.len() - 1 {
                assert(hash_less(a[i], a[a.len() - 1]));
            }
        }
        assert(a.last() == b.last());
        assert(a.drop_last().to_set() =~= b.drop_last().to_set()) by {
            assert forall|x: ContentHash| a.drop_last().to_set().contains(x)
                == b.drop_last().to_set().contains(x) by {
                lemma_drop_last_member(a, b, x);
                lemma_drop_last_member(b, a, x);
            }
        }
        lemma_rising_unique(a.drop_last(), b.drop_last());
        assert(a =~= a.drop_last().push(a.last()));
        assert(b =~= b.drop_last().push(b.last()));
    }
}

proof fn lemma_drop_last_member(a: Seq<ContentHash>, b: Seq<ContentHash>, x: ContentHash)
    requires
        hashes_rising(a),
        hashes_rising(b),
        a.len() > 0,
        b.len() > 0,
        a.last() == b.last(),
        a.to_set() == b.to_set(),
    ensures
        a.drop_last().contains(x) ==> b.drop_last().contains(x),
{
    if a.drop_last().contains(x) {
        let i: int = choose|i: int| 0 <= i < a.drop_last().len() && a.drop_last()[i] == x;
        assert(a[i] == x);
        assert(hash_less(a[i], a[a.len() - 1]));
        assert(a.to_set().contains(x));
        assert(b.to_set().contains(x));
        let j: int = choose|j: int| 0 <= j < b.len() && b[j] == x;
        assert(j < b.len() - 1);
        assert(b.drop_last()[j] == x);
    }
}

} // verus!
