//! Line units of file content, and the replacement blocks that lead from one
//! list of lines to another.
use crate::graph;
use crate::text;
use crate::text::{
    chars_of, ends_with, replace_char, rfind_in, same_text, split_on, string_of, to_lower,
};
use vstd::prelude::*;

verus! {

/// Length of the first line of `s`, its line feed included.
pub open spec fn line_len(s: Seq<u8>) -> nat
    decreases s.len(),
{
    if s.len() == 0 {
        0
    } else if s[0] == 10 {
        1
    } else {
        1 + line_len(s.drop_first())
    }
}

/// A line is within the text, and not empty unless the text is.
pub proof fn lemma_line_len(s: Seq<u8>)
    ensures
        line_len(s) <= s.len(),
        s.len() > 0 ==> line_len(s) > 0,
    decreases s.len(),
{
    if s.len() > 0 && s[0] != 10 {
        lemma_line_len(s.drop_first());
    }
}

/// The lines of `s`, each with its line feed.
pub open spec fn line_units(s: Seq<u8>) -> Seq<Seq<u8>>
    decreases s.len(),
    via line_units_decreases
{
    if s.len() == 0 {
        seq![]
    } else {
        seq![s.take(line_len(s) as int)] + line_units(s.skip(line_len(s) as int))
    }
}

#[via_fn]
proof fn line_units_decreases(s: Seq<u8>) {
    lemma_line_len(s);
}

/// Content has no more lines than bytes.
pub proof fn lemma_line_count(s: Seq<u8>)
    ensures
        line_units(s).len() <= s.len(),
    decreases s.len(),
{
    if s.len() > 0 {
        lemma_line_len(s);
        lemma_line_count(s.skip(line_len(s) as int));
    }
}

/// All bytes of a list of lines, in order.
pub open spec fn all_bytes(ls: Seq<Seq<u8>>) -> Seq<u8>
    decreases ls.len(),
{
    if ls.len() == 0 {
        seq![]
    } else {
        all_bytes(ls.drop_last()) + ls.last()
    }
}

proof fn lemma_all_bytes_front(first: Seq<u8>, rest: Seq<Seq<u8>>)
    ensures
        all_bytes(seq![first] + rest) == first + all_bytes(rest),
    decreases rest.len(),
{
    let all = seq![first] + rest;
    if rest.len() == 0 {
        assert(all.drop_last() =~= Seq::<Seq<u8>>::empty());
        assert(all_bytes(all.drop_last()) =~= Seq::<u8>::empty());
        assert(all_bytes(all) =~= first + all_bytes(rest));
    } else {
        assert(all.drop_last() =~= seq![first] + rest.drop_last());
        lemma_all_bytes_front(first, rest.drop_last());
        assert(all_bytes(all) =~= first + all_bytes(rest));
    }
}

/// Cutting content into lines loses nothing: its lines, put together, are
/// the content, and no line is empty.
pub proof fn lines_make_up_the_content(s: Seq<u8>)
    ensures
        all_bytes(line_units(s)) == s,
        forall|i: int| 0 <= i < line_units(s).len() ==> (#[trigger] line_units(s)[i]).len() > 0,
    decreases s.len(),
{
    if s.len() > 0 {
        lemma_line_len(s);
        let n = line_len(s) as int;
        lines_make_up_the_content(s.skip(n));
        let rest = line_units(s.skip(n));
        lemma_all_bytes_front(s.take(n), rest);
        assert(s =~= s.take(n) + s.skip(n));
        assert forall|i: int| 0 <= i < line_units(s).len() implies (#[trigger] line_units(
            s,
        )[i]).len() > 0 by {
            if i > 0 {
                assert(line_units(s)[i] == rest[i - 1]);
            }
        }
    } else {
        assert(all_bytes(line_units(s)) =~= s);
    }
}

/// The bytes of `s` from `from` up to `to`.
pub fn copy_bytes(s: &[u8], from: usize, to: usize) -> (r: Vec<u8>)
    requires
        from <= to <= s@.len(),
    ensures
        r@ == s@.subrange(from as int, to as int),
{
    let mut r: Vec<u8> = Vec::new();
    let mut i: usize = from;
    while i < to
        invariant
            from <= i <= to <= s@.len(),
            r@ == s@.subrange(from as int, i as int),
        decreases to - i,
    {
        r.push(s[i]);
        assert(s@.subrange(from as int, i as int + 1) =~= s@.subrange(from as int, i as int).push(
            s@[i as int],
        ));
        i += 1;
    }
    r
}

/// A copy of `s`.
pub fn clone_bytes(s: &[u8]) -> (r: Vec<u8>)
    ensures
        r@ == s@,
{
    let r = copy_bytes(s, 0, s.len());
    assert(r@ =~= s@);
    r
}

/// A copy of a list of byte strings.
pub fn clone_byte_lines(ls: &Vec<Vec<u8>>, from: usize, to: usize) -> (r: Vec<Vec<u8>>)
    requires
        from <= to <= ls@.len(),
    ensures
        graph::byte_views(r@) == graph::byte_views(ls@).subrange(from as int, to as int),
        r@.len() == to - from,
{
    let mut r: Vec<Vec<u8>> = Vec::new();
    let ghost all = graph::byte_views(ls@);
    let mut i: usize = from;
    while i < to
        invariant
            from <= i <= to <= ls@.len(),
            all == graph::byte_views(ls@),
            graph::byte_views(r@) == all.subrange(from as int, i as int),
            r@.len() == i - from,
        decreases to - i,
    {
        let ghost before = graph::byte_views(r@);
        r.push(clone_bytes(&ls[i]));
        assert(graph::byte_views(r@) =~= before.push(all[i as int]));
        assert(graph::byte_views(r@) =~= all.subrange(from as int, i as int + 1));
        i += 1;
    }
    r
}

/// Whether two byte strings hold the same bytes.
pub fn same_bytes(a: &[u8], b: &[u8]) -> (r: bool)
    ensures
        r == (a@ == b@),
{
    if a.len() != b.len() {
        return false;
    }
    let mut i: usize = 0;
    while i < a.len()
        invariant
            i <= a@.len(),
            a@.len() == b@.len(),
            forall|j: int| 0 <= j < i ==> a@[j] == b@[j],
        decreases a@.len() - i,
    {
        if a[i] != b[i] {
            return false;
        }
        i += 1;
    }
    assert(a@ =~= b@);
    true
}

/// One past the line of `s` that starts at `from`.
fn line_end(s: &[u8], from: usize) -> (r: usize)
    requires
        from < s@.len(),
    ensures
        from < r <= s@.len(),
        r - from == line_len(s@.skip(from as int)),
{
    let mut i: usize = from;
    loop
        invariant
            from <= i < s@.len(),
            i - from + line_len(s@.skip(i as int)) == line_len(s@.skip(from as int)),
        decreases s@.len() - i,
    {
        assert(s@.skip(i as int)[0] == s@[i as int]);
        assert(s@.skip(i as int).drop_first() =~= s@.skip(i as int + 1));
        if s[i] == 10 {
            return i + 1;
        }
        if i + 1 == s.len() {
            assert(s@.skip(i as int + 1) =~= Seq::<u8>::empty());
            assert(line_len(s@.skip(i as int + 1)) == 0);
            return i + 1;
        }
        i += 1;
    }
}

/// The lines of `content`, each with its line feed; none of empty content.
pub fn split_graph_first_lines(content: &[u8]) -> (r: Vec<Vec<u8>>)
    ensures
        graph::byte_views(r@) == line_units(content@),
{
    let mut out: Vec<Vec<u8>> = Vec::new();
    let mut i: usize = 0;
    assert(content@.skip(0) =~= content@);
    assert(graph::byte_views(out@) + line_units(content@) =~= line_units(content@));
    while i < content.len()
        invariant
            i <= content@.len(),
            graph::byte_views(out@) + line_units(content@.skip(i as int)) == line_units(content@),
        decreases content@.len() - i,
    {
        let ghost before = graph::byte_views(out@);
        let ghost rest = content@.skip(i as int);
        let e: usize = line_end(content, i);
        let line = copy_bytes(content, i, e);
        assert(rest.take(e - i) =~= content@.subrange(i as int, e as int));
        assert(rest.skip(e - i) =~= content@.skip(e as int));
        out.push(line);
        assert(graph::byte_views(out@) =~= before.push(rest.take(e - i)));
        assert(before + line_units(rest) =~= graph::byte_views(out@) + line_units(
            content@.skip(e as int),
        ));
        i = e;
    }
    assert(content@.skip(i as int) =~= Seq::<u8>::empty());
    assert(graph::byte_views(out@) + line_units(content@.skip(i as int)) =~= graph::byte_views(
        out@,
    ));
    out
}

/// How many line units content has.
pub fn count_line_units(content: &[u8]) -> (r: usize)
    ensures
        r == line_units(content@).len(),
        r <= content@.len(),
{
    let mut n: usize = 0;
    let mut i: usize = 0;
    assert(content@.skip(0) =~= content@);
    while i < content.len()
        invariant
            i <= content@.len(),
            n <= i,
            n + line_units(content@.skip(i as int)).len() == line_units(content@).len(),
        decreases content@.len() - i,
    {
        let ghost rest = content@.skip(i as int);
        let e: usize = line_end(content, i);
        assert(rest.skip(e - i) =~= content@.skip(e as int));
        n += 1;
        i = e;
    }
    assert(content@.skip(i as int) =~= Seq::<u8>::empty());
    n
}

/// Length of the longest common start of `a` and `b`.
pub open spec fn common_prefix<A>(a: Seq<A>, b: Seq<A>) -> nat
    decreases a.len(),
{
    if a.len() > 0 && b.len() > 0 && a[0] == b[0] {
        1 + common_prefix(a.drop_first(), b.drop_first())
    } else {
        0
    }
}

/// Length of the longest common end of `a` and `b`.
pub open spec fn common_suffix<A>(a: Seq<A>, b: Seq<A>) -> nat
    decreases a.len(),
{
    if a.len() > 0 && b.len() > 0 && a.last() == b.last() {
        1 + common_suffix(a.drop_last(), b.drop_last())
    } else {
        0
    }
}

/// Two sequences agree on their common prefix.
pub proof fn lemma_common_prefix<A>(a: Seq<A>, b: Seq<A>)
    ensures
        common_prefix(a, b) <= a.len(),
        common_prefix(a, b) <= b.len(),
        a.take(common_prefix(a, b) as int) == b.take(common_prefix(a, b) as int),
    decreases a.len(),
{
    if a.len() > 0 && b.len() > 0 && a[0] == b[0] {
        lemma_common_prefix(a.drop_first(), b.drop_first());
        let n = common_prefix(a.drop_first(), b.drop_first()) as int;
        assert(a.take(n + 1) =~= seq![a[0]] + a.drop_first().take(n));
        assert(b.take(n + 1) =~= seq![b[0]] + b.drop_first().take(n));
    } else {
        assert(a.take(0) =~= b.take(0));
    }
}

/// Two sequences agree on their common suffix.
pub proof fn lemma_common_suffix<A>(a: Seq<A>, b: Seq<A>)
    ensures
        common_suffix(a, b) <= a.len(),
        common_suffix(a, b) <= b.len(),
        a.skip(a.len() - common_suffix(a, b)) == b.skip(b.len() - common_suffix(a, b)),
    decreases a.len(),
{
    if a.len() > 0 && b.len() > 0 && a.last() == b.last() {
        lemma_common_suffix(a.drop_last(), b.drop_last());
        let n = common_suffix(a.drop_last(), b.drop_last()) as int;
        assert(a.skip(a.len() - n - 1) =~= a.drop_last().skip(a.len() - 1 - n).push(a.last()));
        assert(b.skip(b.len() - n - 1) =~= b.drop_last().skip(b.len() - 1 - n).push(b.last()));
    } else {
        assert(a.skip(a.len() as int) =~= b.skip(b.len() as int));
    }
}

/// Bytes that two contents share: their common start and, behind it, their
/// common end.
pub open spec fn shared_bytes(a: Seq<u8>, b: Seq<u8>) -> nat {
    let p = common_prefix(a, b);
    p + common_suffix(a.skip(p as int), b.skip(p as int))
}

/// The larger of two numbers.
pub open spec fn larger(a: nat, b: nat) -> nat {
    if a >= b {
        a
    } else {
        b
    }
}

/// Similarity of two contents in basis points. Only equal contents (and
/// those too large for the product) score full marks.
pub open spec fn similarity(a: Seq<u8>, b: Seq<u8>) -> nat {
    if a == b {
        10_000
    } else {
        let scaled = shared_bytes(a, b) * 10_000;
        let score = (scaled as int / larger(a.len(), b.len()) as int) as nat;
        if scaled > u64::MAX {
            10_000
        } else if score > 9_999 {
            9_999
        } else {
            score
        }
    }
}

/// Approximate byte similarity in basis points: full marks for identical
/// content, else the ratio of the common start and end to the longer
/// content.
pub fn similarity_bps(old_bytes: &[u8], new_bytes: &[u8]) -> (r: u16)
    ensures
        r == similarity(old_bytes@, new_bytes@),
{
    if same_bytes(old_bytes, new_bytes) {
        return 10_000;
    }
    let ghost a = old_bytes@;
    let ghost b = new_bytes@;
    let mut p: usize = 0;
    assert(a.skip(0) =~= a);
    assert(b.skip(0) =~= b);
    while p < old_bytes.len() && p < new_bytes.len() && old_bytes[p] == new_bytes[p]
        invariant
            p <= old_bytes@.len(),
            p <= new_bytes@.len(),
            a == old_bytes@,
            b == new_bytes@,
            p + common_prefix(a.skip(p as int), b.skip(p as int)) == common_prefix(a, b),
        decreases old_bytes@.len() - p,
    {
        assert(a.skip(p as int).drop_first() =~= a.skip(p as int + 1));
        assert(b.skip(p as int).drop_first() =~= b.skip(p as int + 1));
        p += 1;
    }
    let ghost ra = a.skip(p as int);
    let ghost rb = b.skip(p as int);
    let mut q: usize = 0;
    assert(ra.take(ra.len() as int) =~= ra);
    assert(rb.take(rb.len() as int) =~= rb);
    while q < old_bytes.len() - p && q < new_bytes.len() - p && old_bytes[old_bytes.len() - 1 - q]
        == new_bytes[new_bytes.len() - 1 - q]
        invariant
            p <= old_bytes@.len(),
            p <= new_bytes@.len(),
            q <= old_bytes@.len() - p,
            q <= new_bytes@.len() - p,
            ra == old_bytes@.skip(p as int),
            rb == new_bytes@.skip(p as int),
            q + common_suffix(ra.take(ra.len() - q), rb.take(rb.len() - q)) == common_suffix(
                ra,
                rb,
            ),
        decreases old_bytes@.len() - p - q,
    {
        assert(ra.take(ra.len() - q).drop_last() =~= ra.take(ra.len() - q - 1));
        assert(rb.take(rb.len() - q).drop_last() =~= rb.take(rb.len() - q - 1));
        assert(ra.take(ra.len() - q).last() == old_bytes@[old_bytes@.len() - 1 - q]);
        assert(rb.take(rb.len() - q).last() == new_bytes@[new_bytes@.len() - 1 - q]);
        q += 1;
    }
    proof {
        let ta = ra.take(ra.len() - q);
        let tb = rb.take(rb.len() - q);
        if q < old_bytes@.len() - p && q < new_bytes@.len() - p {
            assert(ta.last() == old_bytes@[old_bytes@.len() - 1 - q]);
            assert(tb.last() == new_bytes@[new_bytes@.len() - 1 - q]);
        }
        assert(common_suffix(ta, tb) == 0);
    }
    let shared: u64 = (p + q) as u64;
    assert(shared == shared_bytes(a, b));
    let denominator: u64 = if old_bytes.len() >= new_bytes.len() {
        old_bytes.len() as u64
    } else {
        new_bytes.len() as u64
    };
    assert(denominator == larger(a.len(), b.len()));
    if denominator == 0 {
        assert(a =~= b);
        return 10_000;
    }
    match shared.checked_mul(10_000) {
        None => 10_000,
        Some(scaled) => {
            let score: u64 = scaled / denominator;
            if score > 9_999 {
                9_999
            } else {
                score as u16
            }
        },
    }
}

/// The score never exceeds full marks, and full marks mean equal content as
/// long as the shared span stays below the bound of the product.
pub proof fn full_similarity_means_equal(a: Seq<u8>, b: Seq<u8>)
    ensures
        similarity(a, b) <= 10_000,
        shared_bytes(a, b) * 10_000 <= u64::MAX ==> (similarity(a, b) == 10_000 <==> a == b),
{
}

/// The last of `segments` that names something.
pub open spec fn last_named(segments: Seq<Seq<char>>) -> Option<Seq<char>>
    decreases segments.len(),
{
    if segments.len() == 0 {
        None
    } else if segments.last().len() == 0 || segments.last() == "."@ {
        last_named(segments.drop_last())
    } else {
        Some(segments.last())
    }
}

/// The name of the file that a path leads to; none when it ends in `..` or
/// names nothing.
pub open spec fn base_name(path: Seq<char>) -> Option<Seq<char>> {
    match last_named(text::split_of(path, '/')) {
        Some(s) => if s == ".."@ {
            None
        } else {
            Some(s)
        },
        None => None,
    }
}

/// The extension of the file that a path leads to.
pub open spec fn extension_of(path: Seq<char>) -> Option<Seq<char>> {
    match base_name(path) {
        Some(f) => match text::rfind_text(f, "."@) {
            Some(i) => if i == 0 {
                None
            } else {
                Some(f.skip(i + 1))
            },
            None => None,
        },
        None => None,
    }
}

/// The name of the file that a path leads to.
fn base_name_of(path: &str) -> (r: Option<String>)
    ensures
        text::opt_text(r) == base_name(path@),
{
    let segments = split_on(path, '/');
    let ghost all = text::texts(segments@);
    let mut i: usize = segments.len();
    assert(all.take(i as int) =~= all);
    while i > 0
        invariant
            i <= segments@.len(),
            all == text::texts(segments@),
            all == text::split_of(path@, '/'),
            last_named(all.take(i as int)) == last_named(all),
        decreases i,
    {
        assert(all.take(i as int).last() == segments@[i - 1]@);
        assert(all.take(i as int).drop_last() =~= all.take(i as int - 1));
        let s: &String = &segments[i - 1];
        if !s.as_str().is_empty() && !same_text(s, ".") {
            if same_text(s, "..") {
                return None;
            }
            return Some(s.clone());
        }
        i -= 1;
    }
    None
}

/// The extension of the file that a path leads to.
fn extension(path: &str) -> (r: Option<String>)
    ensures
        text::opt_text(r) == extension_of(path@),
{
    match base_name_of(path) {
        None => None,
        Some(f) => {
            let cs = chars_of(&f);
            proof {
                reveal_strlit(".");
            }
            match rfind_in(&cs, ".") {
                None => None,
                Some(i) => {
                    if i == 0 {
                        None
                    } else {
                        let r = string_of(&cs, i + 1, cs.len());
                        assert(r@ =~= f@.skip(i + 1));
                        Some(r)
                    }
                },
            }
        },
    }
}

/// Extensions of files whose lines are not worth tracking.
pub open spec fn opaque_extension(e: Seq<char>) -> bool {
    ||| e == "png"@
    ||| e == "jpg"@
    ||| e == "jpeg"@
    ||| e == "gif"@
    ||| e == "webp"@
    ||| e == "ico"@
    ||| e == "bmp"@
    ||| e == "tiff"@
    ||| e == "woff"@
    ||| e == "woff2"@
    ||| e == "ttf"@
    ||| e == "eot"@
    ||| e == "otf"@
    ||| e == "pdf"@
    ||| e == "zip"@
    ||| e == "gz"@
    ||| e == "tgz"@
}

fn is_opaque_extension(e: &str) -> (r: bool)
    ensures
        r == opaque_extension(e@),
{
    same_text(e, "png") || same_text(e, "jpg") || same_text(e, "jpeg") || same_text(e, "gif")
        || same_text(e, "webp") || same_text(e, "ico") || same_text(e, "bmp") || same_text(
        e,
        "tiff",
    ) || same_text(e, "woff") || same_text(e, "woff2") || same_text(e, "ttf") || same_text(
        e,
        "eot",
    ) || same_text(e, "otf") || same_text(e, "pdf") || same_text(e, "zip") || same_text(e, "gz")
        || same_text(e, "tgz")
}

/// The name by which a path is judged: its file name, else the whole path.
pub open spec fn judged_name(path: Seq<char>) -> Seq<char> {
    text::lowered(
        match base_name(path) {
            Some(n) => n,
            None => path,
        },
    )
}

/// Names of generated or opaque files.
pub open spec fn opaque_name(n: Seq<char>) -> bool {
    ||| text::has_suffix(n, ".lock"@)
    ||| text::has_suffix(n, ".sum"@)
    ||| text::has_suffix(n, ".min.css"@)
    ||| text::has_suffix(n, ".min.js"@)
    ||| text::has_suffix(n, ".map"@)
    ||| n == "package-lock.json"@
    ||| n == "yarn.lock"@
    ||| n == "pnpm-lock.yaml"@
    ||| n == "npm-shrinkwrap.json"@
    ||| (extension_of(n) is Some && opaque_extension(extension_of(n)->0))
}

/// Paths whose content is generated or opaque: they are imported whole, not
/// line by line.
pub open spec fn generated_path(path: Seq<char>) -> bool {
    let p = text::lowered(text::replaced(path, '\\', '/'));
    ||| opaque_name(judged_name(path))
    ||| text::has_suffix(p, "/website/source/stylesheets/main.css"@)
    ||| p == "website/source/stylesheets/main.css"@
}

/// Whether the content of `path` is generated or opaque, so that it is
/// imported whole, not line by line.
pub fn is_generated_diff_skip_path(path: &str) -> (r: bool)
    ensures
        r == generated_path(path@),
{
    let normalized = replace_char(path, '\\', '/');
    let name = match base_name_of(path) {
        Some(n) => n,
        None => path.to_owned(),
    };
    let lower_name = to_lower(&name);
    let lower_path = to_lower(&normalized);
    if ends_with(&lower_name, ".lock") || ends_with(&lower_name, ".sum") || ends_with(
        &lower_name,
        ".min.css",
    ) || ends_with(&lower_name, ".min.js") || ends_with(&lower_name, ".map") || same_text(
        &lower_name,
        "package-lock.json",
    ) || same_text(&lower_name, "yarn.lock") || same_text(&lower_name, "pnpm-lock.yaml")
        || same_text(&lower_name, "npm-shrinkwrap.json") {
        return true;
    }
    let ext = extension(&lower_name);
    if let Some(e) = &ext {
        if is_opaque_extension(e) {
            return true;
        }
    }
    ends_with(&lower_path, "/website/source/stylesheets/main.css") || same_text(
        &lower_path,
        "website/source/stylesheets/main.css",
    )
}

/// One line of a Git diff.
#[derive(Debug)]
pub struct GitDiffLine {
    /// `+`, `-` or a blank for context.
    pub origin: char,
    pub content: Vec<u8>,
    pub old_lineno: Option<u32>,
    pub new_lineno: Option<u32>,
}

/// A `GitDiffLine` as a value.
pub struct DiffLineView {
    pub origin: char,
    pub content: Seq<u8>,
    pub old_lineno: Option<u32>,
    pub new_lineno: Option<u32>,
}

impl View for GitDiffLine {
    type V = DiffLineView;

    open spec fn view(&self) -> DiffLineView {
        DiffLineView {
            origin: self.origin,
            content: self.content@,
            old_lineno: self.old_lineno,
            new_lineno: self.new_lineno,
        }
    }
}

/// The views of a list of diff lines.
pub open spec fn diff_views(v: Seq<GitDiffLine>) -> Seq<DiffLineView> {
    v.map_values(|l: GitDiffLine| l@)
}

/// A copy of a list of diff lines.
pub fn clone_diff_lines(ls: &Vec<GitDiffLine>) -> (r: Vec<GitDiffLine>)
    ensures
        diff_views(r@) == diff_views(ls@),
{
    let ghost want = diff_views(ls@);
    let mut out: Vec<GitDiffLine> = Vec::new();
    let mut i: usize = 0;
    assert(diff_views(out@) =~= want.take(0));
    while i < ls.len()
        invariant
            i <= ls@.len(),
            want == diff_views(ls@),
            diff_views(out@) == want.take(i as int),
        decreases ls@.len() - i,
    {
        let l = GitDiffLine {
            origin: ls[i].origin,
            content: clone_bytes(&ls[i].content),
            old_lineno: ls[i].old_lineno,
            new_lineno: ls[i].new_lineno,
        };
        let ghost lv = l@;
        assert(lv == want[i as int]);
        let ghost before = diff_views(out@);
        out.push(l);
        assert(diff_views(out@) =~= before.push(lv));
        assert(diff_views(out@) =~= want.take(i as int + 1));
        i += 1;
    }
    assert(want.take(i as int) =~= want);
    out
}

/// A run of old lines replaced by new ones. Line numbers count from one; for
/// a pure insertion `old_start` is the number of the line before it.
#[derive(Debug)]
pub struct GitReplacementBlock {
    pub old_start: u64,
    pub old_len: u64,
    pub new_start: u64,
    pub new_lines: Vec<Vec<u8>>,
}

/// A `GitReplacementBlock` as a value.
#[verifier::ext_equal]
pub struct BlockView {
    pub old_start: u64,
    pub old_len: u64,
    pub new_start: u64,
    pub new_lines: Seq<Seq<u8>>,
}

impl View for GitReplacementBlock {
    type V = BlockView;

    open spec fn view(&self) -> BlockView {
        BlockView {
            old_start: self.old_start,
            old_len: self.old_len,
            new_start: self.new_start,
            new_lines: graph::byte_views(self.new_lines@),
        }
    }
}

/// Whether the new lines of a block can be numbered.
pub open spec fn numbered(b: BlockView) -> bool {
    b.new_start + b.new_lines.len() <= u64::MAX
}

/// The views of a list of blocks.
pub open spec fn block_views(v: Seq<GitReplacementBlock>) -> Seq<BlockView> {
    v.map_values(|b: GitReplacementBlock| b@)
}

/// The replacement block that leads from the lines `old` to the lines `new`:
/// what lies between their common start and their common end.
pub open spec fn state_blocks(old: Seq<Seq<u8>>, new: Seq<Seq<u8>>) -> Seq<BlockView> {
    let p = common_prefix(old, new);
    let q = common_suffix(old.skip(p as int), new.skip(p as int));
    let old_mid = (old.len() - p - q) as nat;
    if old_mid == 0 && new.len() == p + q {
        seq![]
    } else {
        seq![
            BlockView {
                old_start: (if old_mid == 0 {
                    p
                } else {
                    p + 1
                }) as u64,
                old_len: old_mid as u64,
                new_start: (p + 1) as u64,
                new_lines: new.subrange(p as int, new.len() - q),
            },
        ]
    }
}

/// Length of the common start of two lists of lines.
fn common_start(old: &Vec<Vec<u8>>, new: &Vec<Vec<u8>>) -> (r: usize)
    ensures
        r == common_prefix(graph::byte_views(old@), graph::byte_views(new@)),
        r <= old@.len(),
        r <= new@.len(),
{
    let ghost a = graph::byte_views(old@);
    let ghost b = graph::byte_views(new@);
    let mut p: usize = 0;
    assert(a.skip(0) =~= a);
    assert(b.skip(0) =~= b);
    while p < old.len() && p < new.len()
        invariant
            p <= old@.len(),
            p <= new@.len(),
            a == graph::byte_views(old@),
            b == graph::byte_views(new@),
            p + common_prefix(a.skip(p as int), b.skip(p as int)) == common_prefix(a, b),
        ensures
            p <= old@.len(),
            p <= new@.len(),
            p == common_prefix(a, b),
        decreases old@.len() - p,
    {
        assert(a.skip(p as int)[0] == old@[p as int]@);
        assert(b.skip(p as int)[0] == new@[p as int]@);
        if !same_bytes(&old[p], &new[p]) {
            break;
        }
        assert(a.skip(p as int).drop_first() =~= a.skip(p as int + 1));
        assert(b.skip(p as int).drop_first() =~= b.skip(p as int + 1));
        p += 1;
    }
    p
}

/// Length of the common end of two lists of lines behind their first `p`.
fn common_end(old: &Vec<Vec<u8>>, new: &Vec<Vec<u8>>, p: usize) -> (r: usize)
    requires
        p <= old@.len(),
        p <= new@.len(),
    ensures
        r == common_suffix(
            graph::byte_views(old@).skip(p as int),
            graph::byte_views(new@).skip(p as int),
        ),
        p + r <= old@.len(),
        p + r <= new@.len(),
{
    let ghost ra = graph::byte_views(old@).skip(p as int);
    let ghost rb = graph::byte_views(new@).skip(p as int);
    let mut q: usize = 0;
    assert(ra.take(ra.len() as int) =~= ra);
    assert(rb.take(rb.len() as int) =~= rb);
    while q < old.len() - p && q < new.len() - p
        invariant
            p <= old@.len(),
            p <= new@.len(),
            q <= old@.len() - p,
            q <= new@.len() - p,
            ra == graph::byte_views(old@).skip(p as int),
            rb == graph::byte_views(new@).skip(p as int),
            q + common_suffix(ra.take(ra.len() - q), rb.take(rb.len() - q)) == common_suffix(
                ra,
                rb,
            ),
        ensures
            q <= old@.len() - p,
            q <= new@.len() - p,
            q == common_suffix(ra, rb),
        decreases old@.len() - p - q,
    {
        assert(ra.take(ra.len() - q).last() == old@[old@.len() - 1 - q]@);
        assert(rb.take(rb.len() - q).last() == new@[new@.len() - 1 - q]@);
        if !same_bytes(&old[old.len() - 1 - q], &new[new.len() - 1 - q]) {
            break;
        }
        assert(ra.take(ra.len() - q).drop_last() =~= ra.take(ra.len() - q - 1));
        assert(rb.take(rb.len() - q).drop_last() =~= rb.take(rb.len() - q - 1));
        q += 1;
    }
    q
}

/// The replacement blocks that lead from the lines `old` to `new_content`:
/// at most one, between their common start and their common end.
pub fn current_state_replacements(old: &Vec<Vec<u8>>, new_content: &[u8]) -> (r: Vec<
    GitReplacementBlock,
>)
    requires
        old@.len() < u64::MAX,
        new_content@.len() < u64::MAX,
    ensures
        block_views(r@) == state_blocks(graph::byte_views(old@), line_units(new_content@)),
        forall|k: int| 0 <= k < r@.len() ==> numbered(#[trigger] r@[k]@),
{
    let new_lines = split_graph_first_lines(new_content);
    proof {
        lemma_line_count(new_content@);
    }
    let ghost a = graph::byte_views(old@);
    let ghost b = graph::byte_views(new_lines@);
    assert(a.len() == old@.len() && b.len() == new_lines@.len());
    let p: usize = common_start(old, &new_lines);
    let q: usize = common_end(old, &new_lines, p);
    let old_mid: usize = old.len() - p - q;
    let new_end: usize = new_lines.len() - q;
    let mut out: Vec<GitReplacementBlock> = Vec::new();
    if old_mid == 0 && p == new_end {
        assert(block_views(out@) =~= state_blocks(a, b));
        return out;
    }
    let block = GitReplacementBlock {
        old_start: if old_mid == 0 {
            p as u64
        } else {
            p as u64 + 1
        },
        old_len: old_mid as u64,
        new_start: p as u64 + 1,
        new_lines: clone_byte_lines(&new_lines, p, new_end),
    };
    out.push(block);
    assert(block_views(out@) =~= seq![block@]);
    assert(block_views(out@) =~= state_blocks(a, b));
    out
}

/// The lines after the blocks `bs`, which are in order and do not overlap,
/// replaced their old ones in `old`; `done` old lines are already behind.
pub open spec fn after_blocks(old: Seq<Seq<u8>>, bs: Seq<BlockView>, done: int) -> Seq<Seq<u8>>
    decreases bs.len(),
{
    if bs.len() == 0 {
        old.skip(done)
    } else {
        let b = bs[0];
        let start = if b.old_len == 0 {
            b.old_start as int
        } else {
            b.old_start - 1
        };
        old.subrange(done, start) + b.new_lines + after_blocks(
            old,
            bs.drop_first(),
            start + b.old_len,
        )
    }
}

/// The computed block is right: put in place of its old lines it turns the
/// old lines into the new ones.
pub proof fn state_blocks_lead_to_the_new_lines(old: Seq<Seq<u8>>, new: Seq<Seq<u8>>)
    requires
        old.len() < u64::MAX,
        new.len() < u64::MAX,
    ensures
        after_blocks(old, state_blocks(old, new), 0) == new,
{
    let p = common_prefix(old, new);
    lemma_common_prefix(old, new);
    let ra = old.skip(p as int);
    let rb = new.skip(p as int);
    lemma_common_suffix(ra, rb);
    let q = common_suffix(ra, rb);
    let bs = state_blocks(old, new);
    let n = new.len() - q;
    assert(new =~= new.take(p as int) + new.subrange(p as int, n) + new.skip(n));
    assert(ra.skip(ra.len() - q) =~= old.skip(old.len() - q));
    assert(rb.skip(rb.len() - q) =~= new.skip(n));
    if bs.len() == 0 {
        assert(old =~= old.take(p as int) + old.skip(old.len() - q));
        assert(old.skip(0) =~= old);
        assert(new.subrange(p as int, n) =~= seq![]);
        assert(new =~= new.take(p as int) + new.skip(n));
    } else {
        let b = bs[0];
        let start = if b.old_len == 0 {
            b.old_start as int
        } else {
            b.old_start - 1
        };
        assert(start == p);
        assert(old.subrange(0, start) =~= old.take(p as int));
        assert(bs.drop_first() =~= seq![]);
        assert(after_blocks(old, bs.drop_first(), start + b.old_len) =~= old.skip(
            old.len() - q,
        ));
    }
}

/// What the lines of a diff say so far.
#[verifier::ext_equal]
pub struct DiffState {
    pub blocks: Seq<BlockView>,
    pub old_start: Option<u64>,
    pub new_start: Option<u64>,
    pub old_len: u64,
    pub new_lines: Seq<Seq<u8>>,
    pub old_cursor: u64,
    pub new_cursor: u64,
}

/// The state before the first line.
pub open spec fn diff_start() -> DiffState {
    DiffState {
        blocks: seq![],
        old_start: None,
        new_start: None,
        old_len: 0,
        new_lines: seq![],
        old_cursor: 1,
        new_cursor: 1,
    }
}

/// Close the block under construction, if there is one.
pub open spec fn diff_flush(s: DiffState) -> DiffState {
    if s.old_len > 0 || s.new_lines.len() > 0 {
        DiffState {
            blocks: s.blocks.push(
                BlockView {
                    old_start: s.old_start->0,
                    old_len: s.old_len,
                    new_start: match s.new_start {
                        Some(n) => n,
                        None => s.old_start->0,
                    },
                    new_lines: s.new_lines,
                },
            ),
            old_start: None,
            new_start: None,
            old_len: 0,
            new_lines: seq![],
            ..s
        }
    } else {
        s
    }
}

/// The line number behind `n`, else behind the cursor.
pub open spec fn next_line(n: Option<u32>, cursor: u64) -> u64 {
    match n {
        Some(k) => (k + 1) as u64,
        None => (cursor + 1) as u64,
    }
}

/// What one more line of a diff says.
pub open spec fn diff_step(s: DiffState, l: DiffLineView) -> DiffState {
    if l.origin == ' ' {
        let f = diff_flush(s);
        DiffState {
            old_cursor: next_line(l.old_lineno, s.old_cursor),
            new_cursor: next_line(l.new_lineno, s.new_cursor),
            ..f
        }
    } else if l.origin == '-' {
        DiffState {
            old_start: if s.old_start is None {
                Some(
                    match l.old_lineno {
                        Some(n) => n as u64,
                        None => s.old_cursor,
                    },
                )
            } else {
                s.old_start
            },
            old_cursor: next_line(l.old_lineno, s.old_cursor),
            old_len: (s.old_len + 1) as u64,
            ..s
        }
    } else if l.origin == '+' {
        DiffState {
            new_start: if s.new_start is None {
                Some(
                    match l.new_lineno {
                        Some(n) => n as u64,
                        None => s.new_cursor,
                    },
                )
            } else {
                s.new_start
            },
            old_start: if s.old_start is None {
                Some((s.old_cursor - 1) as u64)
            } else {
                s.old_start
            },
            new_cursor: next_line(l.new_lineno, s.new_cursor),
            new_lines: s.new_lines.push(l.content),
            ..s
        }
    } else {
        s
    }
}

/// What the lines of a diff say.
pub open spec fn diff_state(ls: Seq<DiffLineView>) -> DiffState
    decreases ls.len(),
{
    if ls.len() == 0 {
        diff_start()
    } else {
        diff_step(diff_state(ls.drop_last()), ls.last())
    }
}

/// The replacement blocks that a diff describes.
pub open spec fn diff_blocks(ls: Seq<DiffLineView>) -> Seq<BlockView> {
    diff_flush(diff_state(ls)).blocks
}

/// More lines than this fit in no list.
pub const MAX_RECORDS: u64 = 0x3fff_ffff_ffff_ffff;

/// The replacement blocks that the lines of a diff describe: each maximal
/// run of removed and added lines is one block, context lines end it.
pub fn parse_git_diff_replacements(lines: &Vec<GitDiffLine>) -> (r: Vec<GitReplacementBlock>)
    requires
        lines@.len() <= MAX_RECORDS,
    ensures
        block_views(r@) == diff_blocks(diff_views(lines@)),
        forall|k: int| 0 <= k < r@.len() ==> numbered(#[trigger] r@[k]@),
{
    let mut blocks: Vec<GitReplacementBlock> = Vec::new();
    let mut old_start: Option<u64> = None;
    let mut new_start: Option<u64> = None;
    let mut old_len: u64 = 0;
    let mut new_lines: Vec<Vec<u8>> = Vec::new();
    let mut old_cursor: u64 = 1;
    let mut new_cursor: u64 = 1;
    let ghost all = diff_views(lines@);
    assert(block_views(blocks@) =~= Seq::<BlockView>::empty());
    assert(graph::byte_views(new_lines@) =~= Seq::<Seq<u8>>::empty());
    let mut i: usize = 0;
    while i < lines.len()
        invariant
            i <= lines@.len(),
            lines@.len() <= MAX_RECORDS,
            all == diff_views(lines@),
            diff_state(all.take(i as int)) == (DiffState {
                blocks: block_views(blocks@),
                old_start,
                new_start,
                old_len,
                new_lines: graph::byte_views(new_lines@),
                old_cursor,
                new_cursor,
            }),
            old_len <= i,
            1 <= old_cursor <= 0x1_0000_0000 + i,
            1 <= new_cursor <= 0x1_0000_0000 + i,
            old_len > 0 || new_lines@.len() > 0 ==> old_start is Some,
            new_lines@.len() <= i,
            old_start matches Some(n) ==> n <= 0x1_0000_0000 + i,
            new_start matches Some(n) ==> n <= 0x1_0000_0000 + i,
            forall|k: int| 0 <= k < blocks@.len() ==> numbered(#[trigger] blocks@[k]@),
        decreases lines@.len() - i,
    {
        let ghost before = diff_state(all.take(i as int));
        assert(all.take(i as int + 1).drop_last() =~= all.take(i as int));
        assert(all.take(i as int + 1).last() == lines@[i as int]@);
        assert(graph::byte_views(new_lines@).len() == new_lines@.len());
        let line: &GitDiffLine = &lines[i];
        if line.origin == ' ' {
            if old_len > 0 || new_lines.len() > 0 {
                let ghost bs = block_views(blocks@);
                let old: u64 = old_start.unwrap();
                let new: u64 = match new_start {
                    Some(n) => n,
                    None => old,
                };
                let block = GitReplacementBlock {
                    old_start: old,
                    old_len,
                    new_start: new,
                    new_lines,
                };
                let ghost bv = block@;
                blocks.push(block);
                assert(block_views(blocks@) =~= bs.push(bv));
                old_start = None;
                new_start = None;
                old_len = 0;
                new_lines = Vec::new();
                assert(graph::byte_views(new_lines@) =~= Seq::<Seq<u8>>::empty());
            }
            old_cursor = match line.old_lineno {
                Some(n) => n as u64 + 1,
                None => old_cursor + 1,
            };
            new_cursor = match line.new_lineno {
                Some(n) => n as u64 + 1,
                None => new_cursor + 1,
            };
        } else if line.origin == '-' {
            if old_start.is_none() {
                old_start = Some(
                    match line.old_lineno {
                        Some(n) => n as u64,
                        None => old_cursor,
                    },
                );
            }
            old_cursor = match line.old_lineno {
                Some(n) => n as u64 + 1,
                None => old_cursor + 1,
            };
            old_len += 1;
        } else if line.origin == '+' {
            if new_start.is_none() {
                new_start = Some(
                    match line.new_lineno {
                        Some(n) => n as u64,
                        None => new_cursor,
                    },
                );
            }
            if old_start.is_none() {
                old_start = Some(old_cursor - 1);
            }
            new_cursor = match line.new_lineno {
                Some(n) => n as u64 + 1,
                None => new_cursor + 1,
            };
            let ghost ns = graph::byte_views(new_lines@);
            new_lines.push(clone_bytes(&line.content));
            assert(graph::byte_views(new_lines@) =~= ns.push(line.content@));
        }
        i += 1;
    }
    assert(all.take(lines@.len() as int) =~= all);
    assert(graph::byte_views(new_lines@).len() == new_lines@.len());
    if old_len > 0 || new_lines.len() > 0 {
        let ghost bs = block_views(blocks@);
        let old: u64 = old_start.unwrap();
        let new: u64 = match new_start {
            Some(n) => n,
            None => old,
        };
        let block = GitReplacementBlock { old_start: old, old_len, new_start: new, new_lines };
        let ghost bv = block@;
        blocks.push(block);
        assert(block_views(blocks@) =~= bs.push(bv));
    }
    blocks
}

/// A line ends at its line feed: no line holds one before its end, and every
/// line but the last ends with one.
pub proof fn a_line_ends_at_its_line_feed(s: Seq<u8>)
    ensures
        forall|i: int, j: int|
            0 <= i < line_units(s).len() && 0 <= j < line_units(s)[i].len() - 1
                ==> #[trigger] line_units(s)[i][j] != 10,
        forall|i: int|
            0 <= i < line_units(s).len() - 1 ==> (#[trigger] line_units(s)[i]).len() > 0
                && line_units(s)[i].last() == 10,
    decreases s.len(),
{
    if s.len() > 0 {
        lemma_line_len(s);
        lemma_line_feed(s);
        let n = line_len(s) as int;
        let rest = line_units(s.skip(n));
        let all = line_units(s);
        a_line_ends_at_its_line_feed(s.skip(n));
        assert forall|i: int, j: int|
            0 <= i < all.len() && 0 <= j < all[i].len() - 1 implies #[trigger] all[i][j] != 10 by {
            if i > 0 {
                assert(all[i] == rest[i - 1]);
            } else {
                assert(all[i] == s.take(n));
                assert(s[j] != 10);
            }
        }
        assert forall|i: int| 0 <= i < all.len() - 1 implies (#[trigger] all[i]).len() > 0
            && all[i].last() == 10 by {
            if i > 0 {
                assert(all[i] == rest[i - 1]);
            } else {
                assert(all[i] == s.take(n));
                assert(s.skip(n).len() > 0);
            }
        }
    }
}

proof fn lemma_line_feed(s: Seq<u8>)
    ensures
        forall|j: int| 0 <= j < line_len(s) - 1 ==> #[trigger] s[j] != 10,
        line_len(s) < s.len() ==> line_len(s) > 0 && s[line_len(s) - 1] == 10,
    decreases s.len(),
{
    if s.len() > 0 && s[0] != 10 {
        let t = s.drop_first();
        lemma_line_feed(t);
        lemma_line_len(t);
        assert forall|j: int| 0 <= j < line_len(s) - 1 implies #[trigger] s[j] != 10 by {
            if j > 0 {
                assert(s[j] == t[j - 1]);
            }
        }
        if line_len(s) < s.len() {
            assert(s[line_len(s) - 1] == t[line_len(t) - 1]);
        }
    }
}

proof fn lemma_prefix_both_ways<A>(a: Seq<A>, b: Seq<A>)
    ensures
        common_prefix(a, b) == common_prefix(b, a),
    decreases a.len(),
{
    if a.len() > 0 && b.len() > 0 && a[0] == b[0] {
        lemma_prefix_both_ways(a.drop_first(), b.drop_first());
    }
}

proof fn lemma_suffix_both_ways<A>(a: Seq<A>, b: Seq<A>)
    ensures
        common_suffix(a, b) == common_suffix(b, a),
    decreases a.len(),
{
    if a.len() > 0 && b.len() > 0 && a.last() == b.last() {
        lemma_suffix_both_ways(a.drop_last(), b.drop_last());
    }
}

/// Similarity is the same both ways, and never more than full.
pub proof fn similarity_is_the_same_both_ways(a: Seq<u8>, b: Seq<u8>)
    ensures
        similarity(a, b) == similarity(b, a),
        similarity(a, b) <= 10_000,
{
    lemma_prefix_both_ways(a, b);
    let p = common_prefix(a, b) as int;
    lemma_suffix_both_ways(a.skip(p), b.skip(p));
}

/// The block between two states is no larger than it has to be: its first
/// old line differs from its first new one, and its last from its last, and
/// what lies outside it is the same on both sides.
pub proof fn state_blocks_touch_only_what_differs(old: Seq<Seq<u8>>, new: Seq<Seq<u8>>)
    requires
        old.len() < u64::MAX,
        new.len() < u64::MAX,
    ensures
        state_blocks(old, new).len() == (if old == new {
            0nat
        } else {
            1nat
        }),
        old != new ==> {
            let b = state_blocks(old, new)[0];
            let a = if b.old_len == 0 {
                b.old_start as int
            } else {
                b.old_start - 1
            };
            let e = a + b.old_len;
            let n = b.new_lines.len() as int;
            &&& 0 <= a <= e <= old.len()
            &&& b.new_start == a + 1
            &&& new == old.take(a) + b.new_lines + old.skip(e)
            &&& b.old_len > 0 && n > 0 ==> old[a] != b.new_lines[0]
            &&& b.old_len > 0 && n > 0 ==> old[e - 1] != b.new_lines[n - 1]
        },
{
    let p = common_prefix(old, new);
    lemma_common_prefix(old, new);
    let ra = old.skip(p as int);
    let rb = new.skip(p as int);
    lemma_common_suffix(ra, rb);
    let q = common_suffix(ra, rb);
    let bs = state_blocks(old, new);
    state_blocks_lead_to_the_new_lines(old, new);
    if bs.len() == 0 {
        assert(old.skip(0) =~= old);
    } else {
        let b = bs[0];
        let a = p as int;
        let e = a + b.old_len;
        assert(bs.drop_first() =~= seq![]);
        assert(after_blocks(old, bs.drop_first(), e) == old.skip(e));
        assert(old.subrange(0, a) =~= old.take(a));
        lemma_prefix_stops(old, new);
        lemma_suffix_stops(ra, rb);
        if old == new {
            lemma_prefix_of_itself(old);
        }
        if b.old_len > 0 && b.new_lines.len() > 0 {
            assert(old[e - 1] == ra[ra.len() - q - 1]);
            assert(b.new_lines.last() == rb[rb.len() - q - 1]);
        }
    }
}

proof fn lemma_prefix_stops<A>(a: Seq<A>, b: Seq<A>)
    ensures
        ({
            let p = common_prefix(a, b) as int;
            p < a.len() && p < b.len() ==> a[p] != b[p]
        }),
    decreases a.len(),
{
    if a.len() > 0 && b.len() > 0 && a[0] == b[0] {
        lemma_prefix_stops(a.drop_first(), b.drop_first());
    }
}

proof fn lemma_suffix_stops<A>(a: Seq<A>, b: Seq<A>)
    ensures
        ({
            let q = common_suffix(a, b) as int;
            q < a.len() && q < b.len() ==> a[a.len() - q - 1] != b[b.len() - q - 1]
        }),
    decreases a.len(),
{
    if a.len() > 0 && b.len() > 0 && a.last() == b.last() {
        lemma_suffix_stops(a.drop_last(), b.drop_last());
    }
}

proof fn lemma_prefix_of_itself<A>(a: Seq<A>)
    ensures
        common_prefix(a, a) == a.len(),
    decreases a.len(),
{
    if a.len() > 0 {
        lemma_prefix_of_itself(a.drop_first());
    }
}

} // verus!
