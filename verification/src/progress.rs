//! What an import tells about a commit that takes long, or that it could not
//! build graph-first.
use crate::commit;
use crate::commit::{FileOperation, ParsedCommit, ParsedFile};
use crate::graph_first;
use crate::graph_first::GraphFirstSkip;
use crate::line_index;
use crate::line_index::{ImportIndexedFile, ImportLineIndex};
use crate::line_units;
use crate::line_units::count_line_units;
use crate::paths;
use crate::paths::less_text;
use crate::text;
use crate::text::{chars_of, join, replace_char, string_of, to_decimal};
use vstd::prelude::*;

verus! {

/// The name of a file operation.
pub open spec fn operation_name(op: FileOperation) -> Seq<char> {
    match op {
        FileOperation::Added => "Added"@,
        FileOperation::Modified => "Modified"@,
        FileOperation::Deleted => "Deleted"@,
        FileOperation::Renamed => "Renamed"@,
        FileOperation::Copied => "Copied"@,
    }
}

/// The name of a file operation.
pub fn operation_label(op: FileOperation) -> (r: &'static str)
    ensures
        r@ == operation_name(op),
{
    match op {
        FileOperation::Added => "Added",
        FileOperation::Modified => "Modified",
        FileOperation::Deleted => "Deleted",
        FileOperation::Renamed => "Renamed",
        FileOperation::Copied => "Copied",
    }
}

/// How heavy the import of a file is.
#[derive(Clone, Copy, Debug, PartialEq, Eq, Structural)]
pub struct ImportShape {
    /// Lines of the file.
    pub current_lines: u64,
    /// Lines that the index knows.
    pub indexed_lines: u64,
    /// Imported commits that touched the file.
    pub imported_commits: u64,
}

/// The index entry of a file, under its path or else under its old one.
pub open spec fn indexed_entry(f: commit::ParsedFileView, idx: line_index::LineIndexView) -> Option<
    line_index::IndexedFileView,
> {
    if idx.files.contains_key(f.path) {
        Some(idx.files[f.path])
    } else {
        match f.old_path {
            Some(old) => if idx.files.contains_key(old) {
                Some(idx.files[old])
            } else {
                None
            },
            None => None,
        }
    }
}

/// The content of a file, old where there is no new one.
pub open spec fn any_content(f: commit::ParsedFileView) -> Option<Seq<u8>> {
    match f.new_content {
        Some(c) => Some(c),
        None => f.old_content,
    }
}

/// How heavy the import of a file is.
pub open spec fn shape_of(f: commit::ParsedFileView, idx: line_index::LineIndexView) -> ImportShape {
    let indexed = indexed_entry(f, idx);
    let known = match indexed {
        Some(e) => e.lines.len(),
        None => 0,
    };
    ImportShape {
        current_lines: (match any_content(f) {
            Some(c) => line_units::line_units(c).len(),
            None => known,
        }) as u64,
        indexed_lines: known as u64,
        imported_commits: match indexed {
            Some(e) => e.imported_commits,
            None => 0,
        },
    }
}

/// The index entry of a file, under its path or else under its old one.
fn find_indexed<'a>(file: &ParsedFile, index: &'a ImportLineIndex) -> (r: Option<
    &'a ImportIndexedFile,
>)
    requires
        index.wf(),
    ensures
        match r {
            Some(e) => indexed_entry(file@, index@) == Some(e@),
            None => indexed_entry(file@, index@) is None,
        },
{
    match index.files.get(&file.path) {
        Some(e) => {
            assert(index@.files[file.path@] == e@);
            Some(e)
        },
        None => match &file.old_path {
            Some(old) => match index.files.get(old) {
                Some(e) => {
                    assert(index@.files[old@] == e@);
                    Some(e)
                },
                None => None,
            },
            None => None,
        },
    }
}

/// How heavy the import of a file is.
pub fn import_shape_for_file(file: &ParsedFile, line_index: &ImportLineIndex) -> (r: ImportShape)
    requires
        line_index.wf(),
    ensures
        r == shape_of(file@, line_index@),
{
    let indexed = find_indexed(file, line_index);
    let known: usize = match indexed {
        Some(e) => {
            assert(e@.lines.len() == e.lines@.len());
            e.lines.len()
        },
        None => 0,
    };
    let current: usize = match &file.new_content {
        Some(c) => count_line_units(c),
        None => match &file.old_content {
            Some(c) => count_line_units(c),
            None => known,
        },
    };
    ImportShape {
        current_lines: current as u64,
        indexed_lines: known as u64,
        imported_commits: match indexed {
            Some(e) => e.imported_commits,
            None => 0,
        },
    }
}

/// The smaller of a number and the largest `u64`.
pub open spec fn saturated(n: int) -> u64 {
    if n > u64::MAX {
        u64::MAX
    } else {
        n as u64
    }
}

/// The weight of a shape: its lines for every commit, and the lines known.
pub open spec fn shape_weight(s: ImportShape) -> u64 {
    let commits = if s.imported_commits == 0 {
        1int
    } else {
        s.imported_commits as int
    };
    saturated(saturated(s.current_lines * commits) + s.indexed_lines)
}

fn weigh(s: ImportShape) -> (r: u64)
    ensures
        r == shape_weight(s),
{
    let commits: u64 = if s.imported_commits == 0 {
        1
    } else {
        s.imported_commits
    };
    let base: u64 = match s.current_lines.checked_mul(commits) {
        Some(p) => p,
        None => u64::MAX,
    };
    base.saturating_add(s.indexed_lines)
}

/// Number of bytes of some content.
pub open spec fn byte_count(c: Option<Seq<u8>>) -> nat {
    match c {
        Some(c) => c.len(),
        None => 0,
    }
}

/// The line that describes the shape of one file.
pub open spec fn shape_text(f: commit::ParsedFileView, s: ImportShape) -> Seq<char> {
    f.path + " op="@ + operation_name(f.operation) + " lines="@ + text::decimal(
        s.current_lines as nat,
    ) + " indexed_lines="@ + text::decimal(s.indexed_lines as nat) + " file_commits="@
        + text::decimal(s.imported_commits as nat) + " bytes="@ + text::decimal(
        byte_count(any_content(f)),
    )
}

fn describe_shape(file: &ParsedFile, s: ImportShape) -> (r: String)
    ensures
        r@ == shape_text(file@, s),
{
    let bytes: usize = match &file.new_content {
        Some(c) => c.len(),
        None => match &file.old_content {
            Some(c) => c.len(),
            None => 0,
        },
    };
    let mut out: String = file.path.clone();
    out.append(" op=");
    out.append(operation_label(file.operation));
    out.append(" lines=");
    out.append(&to_decimal(s.current_lines));
    out.append(" indexed_lines=");
    out.append(&to_decimal(s.indexed_lines));
    out.append(" file_commits=");
    out.append(&to_decimal(s.imported_commits));
    out.append(" bytes=");
    out.append(&to_decimal(bytes as u64));
    out
}

/// A text with the weight by which it is ranked.
#[derive(Debug)]
pub struct Weighed {
    pub weight: u64,
    pub entry: String,
}

/// The pairs that a list of weighed texts stands for.
pub open spec fn weighed_views(v: Seq<Weighed>) -> Seq<(u64, Seq<char>)> {
    v.map_values(|w: Weighed| (w.weight, w.entry@))
}

/// The list with `e` behind the last entry that is at least as heavy.
pub open spec fn ranked_with(list: Seq<(u64, Seq<char>)>, e: (u64, Seq<char>)) -> Seq<
    (u64, Seq<char>),
>
    decreases list.len(),
{
    if list.len() == 0 || list.last().0 >= e.0 {
        list.push(e)
    } else {
        ranked_with(list.drop_last(), e).push(list.last())
    }
}

/// Put an entry behind the last one that is at least as heavy.
fn rank(list: &mut Vec<Weighed>, e: Weighed)
    ensures
        weighed_views(final(list)@) == ranked_with(
            weighed_views(old(list)@),
            (e.weight, e.entry@),
        ),
{
    let ghost start = weighed_views(list@);
    let ghost ev = (e.weight, e.entry@);
    let mut i: usize = list.len();
    assert(start.take(i as int) =~= start);
    assert(ranked_with(start.take(i as int), ev) + start.skip(i as int) =~= ranked_with(
        start,
        ev,
    ));
    while i > 0 && list[i - 1].weight < e.weight
        invariant
            i <= list@.len(),
            list@ == old(list)@,
            start == weighed_views(list@),
            ev == (e.weight, e.entry@),
            ranked_with(start.take(i as int), ev) + start.skip(i as int) == ranked_with(
                start,
                ev,
            ),
        decreases i,
    {
        let ghost head = start.take(i as int);
        assert(head.last() == start[i - 1]);
        assert(head.drop_last() =~= start.take(i as int - 1));
        assert(ranked_with(start.take(i as int - 1), ev) + start.skip(i as int - 1)
            =~= ranked_with(head, ev) + start.skip(i as int));
        i -= 1;
    }
    let ghost head = start.take(i as int);
    assert(ranked_with(head, ev) =~= head.push(ev)) by {
        if i > 0 {
            assert(head.last() == start[i - 1]);
        }
    }
    list.insert(i, e);
    assert(weighed_views(list@) =~= head.push(ev) + start.skip(i as int));
}

/// The entries of a list of weighed texts, the first `n` of them.
pub open spec fn first_entries(v: Seq<(u64, Seq<char>)>, n: nat) -> Seq<Seq<char>> {
    v.take(line_index::shorter(n, v.len()) as int).map_values(|e: (u64, Seq<char>)| e.1)
}

fn take_entries(v: &Vec<Weighed>, n: usize) -> (r: Vec<String>)
    ensures
        text::texts(r@) == first_entries(weighed_views(v@), n as nat),
{
    let ghost all = weighed_views(v@);
    let ghost k = line_index::shorter(n as nat, all.len());
    let ghost want = first_entries(all, n as nat);
    let mut out: Vec<String> = Vec::new();
    let mut i: usize = 0;
    assert(text::texts(out@) =~= want.take(0));
    while i < v.len() && i < n
        invariant
            i <= k,
            all == weighed_views(v@),
            k == line_index::shorter(n as nat, all.len()),
            want == first_entries(all, n as nat),
            text::texts(out@) == want.take(i as int),
        decreases v@.len() - i,
    {
        let ghost before = text::texts(out@);
        out.push(v[i].entry.clone());
        assert(text::texts(out@) =~= before.push(v@[i as int].entry@));
        assert(want[i as int] == v@[i as int].entry@);
        assert(text::texts(out@) =~= want.take(i as int + 1));
        i += 1;
    }
    assert(want.take(i as int) =~= want);
    out
}

/// The shapes of a list of files, heaviest first and otherwise in turn.
pub open spec fn ranked_shapes(
    files: Seq<commit::ParsedFileView>,
    idx: line_index::LineIndexView,
) -> Seq<(u64, Seq<char>)>
    decreases files.len(),
{
    if files.len() == 0 {
        seq![]
    } else {
        let s = shape_of(files.last(), idx);
        ranked_with(
            ranked_shapes(files.drop_last(), idx),
            (shape_weight(s), shape_text(files.last(), s)),
        )
    }
}

/// The three heaviest files of a commit.
pub fn import_shape_summary(parsed: &ParsedCommit, line_index: &ImportLineIndex) -> (r: String)
    requires
        line_index.wf(),
    ensures
        r@ == text::joined(
            first_entries(ranked_shapes(commit::file_views(parsed.files@), line_index@), 3),
            "; "@,
        ),
{
    let ghost all = commit::file_views(parsed.files@);
    let mut list: Vec<Weighed> = Vec::new();
    let mut i: usize = 0;
    assert(all.take(0) =~= Seq::<commit::ParsedFileView>::empty());
    assert(weighed_views(list@) =~= ranked_shapes(all.take(0), line_index@));
    while i < parsed.files.len()
        invariant
            i <= parsed.files@.len(),
            line_index.wf(),
            all == commit::file_views(parsed.files@),
            weighed_views(list@) == ranked_shapes(all.take(i as int), line_index@),
        decreases parsed.files@.len() - i,
    {
        assert(all.take(i as int + 1).drop_last() =~= all.take(i as int));
        assert(all.take(i as int + 1).last() == parsed.files@[i as int]@);
        let s = import_shape_for_file(&parsed.files[i], line_index);
        let e = Weighed { weight: weigh(s), entry: describe_shape(&parsed.files[i], s) };
        rank(&mut list, e);
        i += 1;
    }
    assert(all.take(parsed.files@.len() as int) =~= all);
    join(&take_entries(&list, 3), "; ")
}

/// The first file with this path.
pub open spec fn file_at(files: Seq<commit::ParsedFileView>, path: Seq<char>) -> Option<
    commit::ParsedFileView,
>
    decreases files.len(),
{
    if files.len() == 0 {
        None
    } else if files[0].path == path {
        Some(files[0])
    } else {
        file_at(files.drop_first(), path)
    }
}

/// Number of lines of the first file with this path.
pub open spec fn lines_at(files: Seq<commit::ParsedFileView>, path: Seq<char>) -> nat {
    match file_at(files, path) {
        Some(f) => match any_content(f) {
            Some(c) => line_units::line_units(c).len(),
            None => 0,
        },
        None => 0,
    }
}

/// The line that describes a skip.
pub open spec fn skip_text(skip: graph_first::SkipView, lines: nat) -> Seq<char> {
    skip.path + " op="@ + operation_name(skip.operation) + " reason="@
        + graph_first::reason_name(skip.reason) + " lines="@ + text::decimal(lines)
}

fn count_lines_at(files: &Vec<ParsedFile>, path: &String) -> (r: usize)
    ensures
        r == lines_at(commit::file_views(files@), path@),
{
    let ghost all = commit::file_views(files@);
    let mut i: usize = 0;
    assert(all.skip(0) =~= all);
    while i < files.len()
        invariant
            i <= files@.len(),
            all == commit::file_views(files@),
            file_at(all, path@) == file_at(all.skip(i as int), path@),
        decreases files@.len() - i,
    {
        assert(all.skip(i as int)[0] == files@[i as int]@);
        assert(all.skip(i as int).drop_first() =~= all.skip(i as int + 1));
        if files[i].path == *path {
            return match &files[i].new_content {
                Some(c) => count_line_units(c),
                None => match &files[i].old_content {
                    Some(c) => count_line_units(c),
                    None => 0,
                },
            };
        }
        i += 1;
    }
    0
}

/// The lines that describe the first `n` skips.
pub open spec fn skip_texts(
    skips: Seq<graph_first::SkipView>,
    files: Seq<commit::ParsedFileView>,
    n: nat,
) -> Seq<Seq<char>> {
    Seq::new(
        line_index::shorter(n, skips.len()),
        |i: int| skip_text(skips[i], lines_at(files, skips[i].path)),
    )
}

/// The first five reasons why a commit was not built graph-first.
pub fn graph_first_skip_summary(skips: &Vec<GraphFirstSkip>, parsed: &ParsedCommit) -> (r: String)
    ensures
        r@ == text::joined(
            skip_texts(
                graph_first::skip_views(skips@),
                commit::file_views(parsed.files@),
                5,
            ),
            "; "@,
        ),
{
    let ghost sv = graph_first::skip_views(skips@);
    let ghost fv = commit::file_views(parsed.files@);
    let ghost want = skip_texts(sv, fv, 5);
    let mut out: Vec<String> = Vec::new();
    let mut i: usize = 0;
    assert(text::texts(out@) =~= want.take(0));
    while i < skips.len() && i < 5
        invariant
            i <= want.len(),
            sv == graph_first::skip_views(skips@),
            fv == commit::file_views(parsed.files@),
            want == skip_texts(sv, fv, 5),
            text::texts(out@) == want.take(i as int),
        decreases skips@.len() - i,
    {
        let skip: &GraphFirstSkip = &skips[i];
        assert(sv[i as int] == skip@);
        let lines: usize = count_lines_at(&parsed.files, &skip.path);
        let mut line: String = skip.path.clone();
        line.append(" op=");
        line.append(operation_label(skip.operation));
        line.append(" reason=");
        line.append(skip.reason.label());
        line.append(" lines=");
        line.append(&to_decimal(lines as u64));
        let ghost lv = line@;
        let ghost before = text::texts(out@);
        assert(lv == want[i as int]);
        out.push(line);
        assert(text::texts(out@) =~= before.push(lv));
        assert(text::texts(out@) =~= want.take(i as int + 1));
        i += 1;
    }
    assert(want.take(i as int) =~= want);
    join(&out, "; ")
}

/// The first `n` characters of a text, with three dots where some are left.
pub open spec fn truncated(s: Seq<char>, n: nat) -> Seq<char> {
    if s.len() <= n {
        s
    } else {
        s.take(n as int) + "..."@
    }
}

/// Cut a text down to `max_chars` characters and three dots.
pub fn truncate_for_progress(input: &str, max_chars: usize) -> (r: String)
    ensures
        r@ == truncated(input@, max_chars as nat),
{
    let cs = chars_of(input);
    if cs.len() <= max_chars {
        assert(cs@.subrange(0, cs@.len() as int) =~= cs@);
        return string_of(&cs, 0, cs.len());
    }
    let mut out = string_of(&cs, 0, max_chars);
    out.append("...");
    out
}

/// Name a commit in a progress line: its short id and its subject.
pub fn slow_import_commit_label(parsed: &ParsedCommit) -> (r: String)
    ensures
        r@ == parsed.short_sha@ + " \""@ + truncated(
            text::replaced(parsed.metadata.message@, '\n', ' '),
            72,
        ) + "\""@,
{
    let message = truncate_for_progress(&replace_char(&parsed.metadata.message, '\n', ' '), 72);
    let mut out: String = parsed.short_sha.clone();
    out.append(" \"");
    out.append(&message);
    out.append("\"");
    out
}

/// A path with a number of bytes.
#[derive(Debug)]
pub struct SizedPath {
    pub path: String,
    pub size: u64,
}

/// The pairs that a list of sized paths stands for.
pub open spec fn sized_views(v: Seq<SizedPath>) -> Seq<(Seq<char>, u64)> {
    v.map_values(|s: SizedPath| (s.path@, s.size))
}

/// Whether `a` comes before `b`: larger ones first, then by path.
pub open spec fn larger_first(a: (Seq<char>, u64), b: (Seq<char>, u64)) -> bool {
    a.1 > b.1 || (a.1 == b.1 && paths::text_less(a.0, b.0))
}

/// The list with `e` behind the last entry that it does not precede.
pub open spec fn sized_with(list: Seq<(Seq<char>, u64)>, e: (Seq<char>, u64)) -> Seq<
    (Seq<char>, u64),
>
    decreases list.len(),
{
    if list.len() == 0 || !larger_first(e, list.last()) {
        list.push(e)
    } else {
        sized_with(list.drop_last(), e).push(list.last())
    }
}

/// A list of sized paths, largest first.
pub open spec fn by_size(list: Seq<(Seq<char>, u64)>) -> Seq<(Seq<char>, u64)>
    decreases list.len(),
{
    if list.len() == 0 {
        seq![]
    } else {
        sized_with(by_size(list.drop_last()), list.last())
    }
}

fn place_sized(list: &mut Vec<SizedPath>, e: SizedPath)
    ensures
        sized_views(final(list)@) == sized_with(sized_views(old(list)@), (e.path@, e.size)),
        final(list)@.len() == old(list)@.len() + 1,
{
    let ghost start = sized_views(list@);
    let ghost ev = (e.path@, e.size);
    let mut i: usize = list.len();
    assert(start.take(i as int) =~= start);
    assert(sized_with(start.take(i as int), ev) + start.skip(i as int) =~= sized_with(start, ev));
    let mut going: bool = true;
    while i > 0 && going
        invariant
            i <= list@.len(),
            list@ == old(list)@,
            start == sized_views(list@),
            ev == (e.path@, e.size),
            sized_with(start.take(i as int), ev) + start.skip(i as int) == sized_with(start, ev),
            !going ==> i > 0 && !larger_first(ev, start[i - 1]),
        decreases i + if going {
                1int
            } else {
                0int
            },
    {
        let ghost head = start.take(i as int);
        assert(head.last() == start[i - 1]);
        let other: &SizedPath = &list[i - 1];
        if e.size > other.size || (e.size == other.size && less_text(&e.path, &other.path)) {
            assert(head.drop_last() =~= start.take(i as int - 1));
            assert(sized_with(start.take(i as int - 1), ev) + start.skip(i as int - 1)
                =~= sized_with(head, ev) + start.skip(i as int));
            i -= 1;
        } else {
            going = false;
        }
    }
    let ghost head = start.take(i as int);
    assert(sized_with(head, ev) =~= head.push(ev)) by {
        if i > 0 {
            assert(head.last() == start[i - 1]);
        }
    }
    list.insert(i, e);
    assert(sized_views(list@) =~= head.push(ev) + start.skip(i as int));
}

/// The three largest records of a commit, largest first and then by path.
pub fn largest_records(records: Vec<SizedPath>) -> (r: Vec<SizedPath>)
    ensures
        sized_views(r@) == by_size(sized_views(records@)).take(
            line_index::shorter(3, by_size(sized_views(records@)).len()) as int,
        ),
{
    let ghost all = sized_views(records@);
    let mut list: Vec<SizedPath> = Vec::new();
    let mut i: usize = 0;
    assert(all.take(0) =~= Seq::<(Seq<char>, u64)>::empty());
    assert(sized_views(list@) =~= by_size(all.take(0)));
    while i < records.len()
        invariant
            i <= records@.len(),
            all == sized_views(records@),
            sized_views(list@) == by_size(all.take(i as int)),
        decreases records@.len() - i,
    {
        assert(all.take(i as int + 1).drop_last() =~= all.take(i as int));
        assert(all.take(i as int + 1).last() == (records@[i as int].path@, records@[i as int].size));
        place_sized(
            &mut list,
            SizedPath { path: records[i].path.clone(), size: records[i].size },
        );
        i += 1;
    }
    assert(all.take(records@.len() as int) =~= all);
    let ghost sorted = sized_views(list@);
    if list.len() > 3 {
        list.truncate(3);
    }
    assert(sized_views(list@) =~= sorted.take(line_index::shorter(3, sorted.len()) as int));
    list
}

/// How many files of a list changed in one way.
pub open spec fn count_op(files: Seq<commit::ParsedFileView>, op: FileOperation) -> nat
    decreases files.len(),
{
    if files.len() == 0 {
        0
    } else if files.last().operation == op {
        count_op(files.drop_last(), op) + 1
    } else {
        count_op(files.drop_last(), op)
    }
}

fn count_operation(files: &Vec<ParsedFile>, op: FileOperation) -> (r: usize)
    ensures
        r == count_op(commit::file_views(files@), op),
        r <= files@.len(),
{
    let ghost all = commit::file_views(files@);
    let mut n: usize = 0;
    let mut i: usize = 0;
    assert(all.take(0) =~= Seq::<commit::ParsedFileView>::empty());
    while i < files.len()
        invariant
            n <= i <= files@.len(),
            all == commit::file_views(files@),
            n == count_op(all.take(i as int), op),
        decreases files@.len() - i,
    {
        assert(all.take(i as int + 1).drop_last() =~= all.take(i as int));
        assert(all.take(i as int + 1).last() == files@[i as int]@);
        if files[i].operation == op {
            n += 1;
        }
        i += 1;
    }
    assert(all.take(files@.len() as int) =~= all);
    n
}

/// The bytes that a commit changed: its new contents and its old ones.
pub open spec fn changed_bytes(files: Seq<commit::ParsedFileView>) -> nat
    decreases files.len(),
{
    if files.len() == 0 {
        0
    } else {
        changed_bytes(files.drop_last()) + byte_count(files.last().new_content) + byte_count(
            files.last().old_content,
        )
    }
}

/// The bytes that a commit changed; `None` when they cannot be counted.
pub fn count_changed_bytes(files: &Vec<ParsedFile>) -> (r: Option<u64>)
    ensures
        match r {
            Some(n) => n == changed_bytes(commit::file_views(files@)),
            None => changed_bytes(commit::file_views(files@)) > u64::MAX,
        },
{
    let ghost all = commit::file_views(files@);
    let mut n: u64 = 0;
    let mut i: usize = 0;
    assert(all.take(0) =~= Seq::<commit::ParsedFileView>::empty());
    while i < files.len()
        invariant
            i <= files@.len(),
            all == commit::file_views(files@),
            n == changed_bytes(all.take(i as int)),
        decreases files@.len() - i,
    {
        assert(all.take(i as int + 1).drop_last() =~= all.take(i as int));
        assert(all.take(i as int + 1).last() == files@[i as int]@);
        let new: u64 = match &files[i].new_content {
            Some(c) => c.len() as u64,
            None => 0,
        };
        let old_len: u64 = match &files[i].old_content {
            Some(c) => c.len() as u64,
            None => 0,
        };
        let sum: Option<u64> = match n.checked_add(new) {
            Some(s) => s.checked_add(old_len),
            None => None,
        };
        match sum {
            Some(s) => {
                n = s;
            },
            None => {
                proof {
                    lemma_bytes_grow(all, i as int + 1);
                }
                return None;
            },
        }
        i += 1;
    }
    assert(all.take(files@.len() as int) =~= all);
    Some(n)
}

proof fn lemma_bytes_grow(files: Seq<commit::ParsedFileView>, n: int)
    requires
        0 <= n <= files.len(),
    ensures
        changed_bytes(files.take(n)) <= changed_bytes(files),
    decreases files.len() - n,
{
    if n == files.len() {
        assert(files.take(n) =~= files);
    } else {
        assert(files.take(n + 1).drop_last() =~= files.take(n));
        lemma_bytes_grow(files, n + 1);
    }
}

/// What a progress line tells about the work on a commit.
pub open spec fn record_summary(
    records: nat,
    files: Seq<commit::ParsedFileView>,
    bytes: Seq<char>,
    top: Seq<Seq<char>>,
) -> Seq<char> {
    "records="@ + text::decimal(records) + ", files="@ + text::decimal(files.len()) + ", bytes="@
        + bytes + ", ops=+"@ + text::decimal(count_op(files, FileOperation::Added)) + "/~"@
        + text::decimal(count_op(files, FileOperation::Modified)) + "/-"@ + text::decimal(
        count_op(files, FileOperation::Deleted),
    ) + " renames="@ + text::decimal(count_op(files, FileOperation::Renamed)) + " copies="@
        + text::decimal(count_op(files, FileOperation::Copied)) + "; "@ + if top.len() == 0 {
        "top records: none"@
    } else {
        "top records: "@ + text::joined(top, ", "@)
    }
}

/// Tell about the work on a commit: its records, files, bytes (as written in
/// `bytes`), operations and largest records (each as written in `top`).
pub fn slow_import_record_summary(
    parsed: &ParsedCommit,
    records: usize,
    bytes: &str,
    top: &Vec<String>,
) -> (r: String)
    ensures
        r@ == record_summary(
            records as nat,
            commit::file_views(parsed.files@),
            bytes@,
            text::texts(top@),
        ),
{
    let files: &Vec<ParsedFile> = &parsed.files;
    assert(commit::file_views(files@).len() == files@.len());
    assert(text::texts(top@).len() == top@.len());
    let tail: String = if top.len() == 0 {
        "top records: none".to_owned()
    } else {
        let mut t: String = "top records: ".to_owned();
        t.append(&join(top, ", "));
        t
    };
    let mut out: String = "records=".to_owned();
    out.append(&to_decimal(records as u64));
    out.append(", files=");
    out.append(&to_decimal(files.len() as u64));
    out.append(", bytes=");
    out.append(bytes);
    out.append(", ops=+");
    out.append(&to_decimal(count_operation(files, FileOperation::Added) as u64));
    out.append("/~");
    out.append(&to_decimal(count_operation(files, FileOperation::Modified) as u64));
    out.append("/-");
    out.append(&to_decimal(count_operation(files, FileOperation::Deleted) as u64));
    out.append(" renames=");
    out.append(&to_decimal(count_operation(files, FileOperation::Renamed) as u64));
    out.append(" copies=");
    out.append(&to_decimal(count_operation(files, FileOperation::Copied) as u64));
    out.append("; ");
    out.append(&tail);
    out
}

/// Whether a list of weighed entries goes from heavy to light.
pub open spec fn heaviest_first(v: Seq<(u64, Seq<char>)>) -> bool {
    forall|i: int, j: int| 0 <= i < j < v.len() ==> (#[trigger] v[i]).0 >= (#[trigger] v[j]).0
}

/// An entry is ranked: the list stays heaviest first, and holds that entry
/// besides what it held, nothing lost and nothing twice.
pub proof fn an_entry_goes_to_its_rank(list: Seq<(u64, Seq<char>)>, e: (u64, Seq<char>))
    requires
        heaviest_first(list),
    ensures
        heaviest_first(ranked_with(list, e)),
        ranked_with(list, e).to_multiset() == list.to_multiset().insert(e),
    decreases list.len(),
{
    let r = ranked_with(list, e);
    if list.len() == 0 || list.last().0 >= e.0 {
        list.to_multiset_ensures();
        assert(r == list.push(e));
        assert(r.to_multiset() =~= list.to_multiset().insert(e));
        assert forall|i: int, j: int| 0 <= i < j < r.len() implies (#[trigger] r[i]).0 >= (
        #[trigger] r[j]).0 by {
            assert(r[i] == list[i]);
            if j < list.len() {
                assert(r[j] == list[j]);
            } else if i < list.len() - 1 {
                assert(list[i].0 >= list[list.len() - 1].0);
            }
        }
    } else {
        let h = list.drop_last();
        let z = list.last();
        assert forall|i: int, j: int| 0 <= i < j < h.len() implies (#[trigger] h[i]).0 >= (
        #[trigger] h[j]).0 by {
            assert(h[i] == list[i] && h[j] == list[j]);
        }
        an_entry_goes_to_its_rank(h, e);
        let w = ranked_with(h, e);
        w.to_multiset_ensures();
        h.to_multiset_ensures();
        assert(list =~= h.push(z));
        assert(r.to_multiset() =~= list.to_multiset().insert(e));
        assert forall|i: int, j: int| 0 <= i < j < r.len() implies (#[trigger] r[i]).0 >= (
        #[trigger] r[j]).0 by {
            assert(r[i] == w[i]);
            if j < w.len() {
                assert(r[j] == w[j]);
            } else if w[i] != e {
                assert(w.to_multiset().count(w[i]) > 0) by {
                    assert(w.contains(w[i]));
                }
                assert(h.to_multiset().count(w[i]) > 0);
                assert(h.contains(w[i]));
                let k = choose|k: int| 0 <= k < h.len() && h[k] == w[i];
                assert(list[k].0 >= list[list.len() - 1].0);
            }
        }
    }
}

/// Whether a list of sized paths goes from large to small, and by path where
/// two are the same size.
pub open spec fn largest_first(v: Seq<(Seq<char>, u64)>) -> bool {
    forall|i: int, j: int| 0 <= i < j < v.len() ==> !larger_first(#[trigger] v[j], #[trigger] v[i])
}

proof fn lemma_not_larger_trans(a: (Seq<char>, u64), b: (Seq<char>, u64), c: (Seq<char>, u64))
    requires
        !larger_first(b, a),
        !larger_first(c, b),
    ensures
        !larger_first(c, a),
{
    if larger_first(c, a) && a.1 == b.1 && b.1 == c.1 {
        paths::lemma_text_less_total(a.0, b.0);
        if a.0 != b.0 {
            paths::lemma_text_less_trans(c.0, a.0, b.0);
        }
    }
}

proof fn lemma_sized(list: Seq<(Seq<char>, u64)>, e: (Seq<char>, u64))
    requires
        largest_first(list),
    ensures
        largest_first(sized_with(list, e)),
        sized_with(list, e).to_multiset() == list.to_multiset().insert(e),
    decreases list.len(),
{
    let r = sized_with(list, e);
    if list.len() == 0 || !larger_first(e, list.last()) {
        list.to_multiset_ensures();
        assert(r == list.push(e));
        assert(r.to_multiset() =~= list.to_multiset().insert(e));
        assert forall|i: int, j: int| 0 <= i < j < r.len() implies !larger_first(
            #[trigger] r[j],
            #[trigger] r[i],
        ) by {
            assert(r[i] == list[i]);
            if j < list.len() {
                assert(r[j] == list[j]);
            } else if i < list.len() - 1 {
                assert(!larger_first(list[list.len() - 1], list[i]));
                lemma_not_larger_trans(list[i], list[list.len() - 1], e);
            }
        }
    } else {
        let h = list.drop_last();
        let z = list.last();
        assert forall|i: int, j: int| 0 <= i < j < h.len() implies !larger_first(
            #[trigger] h[j],
            #[trigger] h[i],
        ) by {
            assert(h[i] == list[i] && h[j] == list[j]);
        }
        lemma_sized(h, e);
        let w = sized_with(h, e);
        w.to_multiset_ensures();
        h.to_multiset_ensures();
        assert(list =~= h.push(z));
        assert(r.to_multiset() =~= list.to_multiset().insert(e));
        assert forall|i: int, j: int| 0 <= i < j < r.len() implies !larger_first(
            #[trigger] r[j],
            #[trigger] r[i],
        ) by {
            assert(r[i] == w[i]);
            if j < w.len() {
                assert(r[j] == w[j]);
            } else if w[i] == e {
                if e.1 == z.1 {
                    paths::lemma_text_less_total(e.0, z.0);
                    if paths::text_less(z.0, e.0) {
                        paths::lemma_text_less_trans(z.0, e.0, z.0);
                        lemma_not_less_itself(z.0);
                    }
                }
            } else {
                assert(w.to_multiset().count(w[i]) > 0) by {
                    assert(w.contains(w[i]));
                }
                assert(h.to_multiset().count(w[i]) > 0);
                assert(h.contains(w[i]));
                let k = choose|k: int| 0 <= k < h.len() && h[k] == w[i];
                assert(!larger_first(list[list.len() - 1], list[k]));
            }
        }
    }
}

proof fn lemma_not_less_itself(a: Seq<char>)
    ensures
        !paths::text_less(a, a),
    decreases a.len(),
{
    if a.len() > 0 {
        lemma_not_less_itself(a.drop_first());
    }
}

/// Records are sorted by size: the same ones, each as often, the largest
/// first.
pub proof fn records_are_sorted_by_size(list: Seq<(Seq<char>, u64)>)
    ensures
        largest_first(by_size(list)),
        by_size(list).to_multiset() == list.to_multiset(),
    decreases list.len(),
{
    list.to_multiset_ensures();
    if list.len() > 0 {
        let h = list.drop_last();
        records_are_sorted_by_size(h);
        lemma_sized(by_size(h), list.last());
        h.to_multiset_ensures();
        assert(list =~= h.push(list.last()));
        assert(by_size(list).to_multiset() =~= list.to_multiset());
    } else {
        assert(by_size(list) =~= list);
    }
}

} // verus!
