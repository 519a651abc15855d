//! Commit messages: trailers, pull-request numbers and squash formats.
use crate::text;
use crate::text::{
    chars_of, contains_text, ends_with, find_in, has_sub, join, lines, rfind_in, split_on,
    starts_with, string_of, strip_prefix, to_decimal, trim, trim_end,
};
use vstd::prelude::*;

verus! {

/// The value of a trailer line with the prefix `p`, when it has one.
pub open spec fn trailer_line(line: Seq<char>, p: Seq<char>) -> Option<Seq<char>> {
    let t = text::trimmed(line);
    if text::has_prefix(t, p) && text::trimmed(t.skip(p.len() as int)).len() > 0 {
        Some(text::trimmed(t.skip(p.len() as int)))
    } else {
        None
    }
}

/// The first trailer value with the prefix `p` among the lines `ls`.
pub open spec fn first_trailer(ls: Seq<Seq<char>>, p: Seq<char>) -> Option<Seq<char>>
    decreases ls.len(),
{
    if ls.len() == 0 {
        None
    } else {
        match trailer_line(ls[0], p) {
            Some(v) => Some(v),
            None => first_trailer(ls.drop_first(), p),
        }
    }
}

/// The value of the first non-empty `key: value` trailer of a message.
pub open spec fn trailer_of(message: Seq<char>, key: Seq<char>) -> Option<Seq<char>> {
    first_trailer(text::lines_of(message), key + ":"@)
}

/// Parse a `key: value` trailer line from a commit message: the first one
/// whose value is not empty.
pub fn parse_trailer(message: &str, key: &str) -> (r: Option<String>)
    ensures
        text::opt_text(r) == trailer_of(message@, key@),
{
    let mut prefix: String = key.to_owned();
    prefix.append(":");
    let ls = lines(message);
    let mut i: usize = 0;
    assert(text::texts(ls@).skip(0) =~= text::texts(ls@));
    while i < ls.len()
        invariant
            i <= ls@.len(),
            prefix@ == key@ + ":"@,
            first_trailer(text::texts(ls@).skip(i as int), prefix@) == trailer_of(message@, key@),
        decreases ls@.len() - i,
    {
        let ghost rest = text::texts(ls@).skip(i as int);
        assert(rest[0] == ls@[i as int]@);
        assert(rest.drop_first() =~= text::texts(ls@).skip(i as int + 1));
        let line = trim(&ls[i]);
        match strip_prefix(&line, &prefix) {
            Some(value) => {
                let value = trim(&value);
                if !value.as_str().is_empty() {
                    return Some(value);
                }
            },
            None => {},
        }
        i += 1;
    }
    None
}

/// Read one identity header from a commit message.
pub fn parse_header_trailer(message: &str, key: &str) -> (r: Option<String>)
    ensures
        text::opt_text(r) == trailer_of(message@, key@),
{
    parse_trailer(message, key)
}

/// The pieces, trimmed, without those that are empty then.
pub open spec fn trimmed_pieces(pieces: Seq<Seq<char>>) -> Seq<Seq<char>>
    decreases pieces.len(),
{
    if pieces.len() == 0 {
        seq![]
    } else {
        let before = trimmed_pieces(pieces.drop_last());
        let t = text::trimmed(pieces.last());
        if t.len() == 0 {
            before
        } else {
            before.push(t)
        }
    }
}

/// The change hashes named by the value of one `Atomic-Changes` trailer.
pub open spec fn change_names(value: Seq<char>) -> Seq<Seq<char>> {
    trimmed_pieces(text::split_of(value, ','))
}

/// Split the value of one `Atomic-Changes` trailer into its non-empty change
/// hashes.
pub fn split_atomic_changes_value(value: &str) -> (r: Vec<String>)
    ensures
        text::texts(r@) == change_names(value@),
{
    let pieces = split_on(value, ',');
    let mut out: Vec<String> = Vec::new();
    let mut i: usize = 0;
    let ghost all = text::texts(pieces@);
    assert(text::texts(out@) =~= trimmed_pieces(all.take(0)));
    while i < pieces.len()
        invariant
            i <= pieces@.len(),
            all == text::texts(pieces@),
            text::texts(out@) == trimmed_pieces(all.take(i as int)),
        decreases pieces@.len() - i,
    {
        let ghost before = text::texts(out@);
        assert(all.take(i as int + 1).drop_last() =~= all.take(i as int));
        assert(all.take(i as int + 1).last() == pieces@[i as int]@);
        let t = trim(&pieces[i]);
        if !t.as_str().is_empty() {
            let ghost tv = t@;
            out.push(t);
            assert(text::texts(out@) =~= before.push(tv));
        }
        i += 1;
    }
    assert(all.take(pieces@.len() as int) =~= all);
    out
}

/// `all` with those of `names` that it does not hold yet, in order.
pub open spec fn with_new(all: Seq<Seq<char>>, names: Seq<Seq<char>>) -> Seq<Seq<char>>
    decreases names.len(),
{
    if names.len() == 0 {
        all
    } else {
        let before = with_new(all, names.drop_last());
        if before.contains(names.last()) {
            before
        } else {
            before.push(names.last())
        }
    }
}

/// The change hashes that the lines `ls` name, each once, first seen first.
pub open spec fn changes_in(ls: Seq<Seq<char>>) -> Seq<Seq<char>>
    decreases ls.len(),
{
    if ls.len() == 0 {
        seq![]
    } else {
        let before = changes_in(ls.drop_last());
        let t = text::trimmed(ls.last());
        if text::has_prefix(t, "Atomic-Changes:"@) {
            with_new(before, change_names(t.skip("Atomic-Changes:"@.len() as int)))
        } else {
            before
        }
    }
}

/// Parse every `Atomic-Changes` trailer of a commit message: all hashes of
/// all blocks, each once, in first-seen order.
pub fn parse_atomic_changes_trailer(message: &str) -> (r: Option<Vec<String>>)
    ensures
        match r {
            Some(v) => text::texts(v@) == changes_in(text::lines_of(message@)) && v@.len() > 0,
            None => changes_in(text::lines_of(message@)).len() == 0,
        },
{
    let ls = lines(message);
    let mut all: Vec<String> = Vec::new();
    let mut i: usize = 0;
    let ghost lv = text::texts(ls@);
    assert(text::texts(all@) =~= changes_in(lv.take(0)));
    while i < ls.len()
        invariant
            i <= ls@.len(),
            lv == text::texts(ls@),
            text::texts(all@) == changes_in(lv.take(i as int)),
        decreases ls@.len() - i,
    {
        assert(lv.take(i as int + 1).drop_last() =~= lv.take(i as int));
        assert(lv.take(i as int + 1).last() == ls@[i as int]@);
        let line = trim(&ls[i]);
        match strip_prefix(&line, "Atomic-Changes:") {
            Some(rest) => {
                let names = split_atomic_changes_value(&rest);
                let ghost start = text::texts(all@);
                let ghost nv = text::texts(names@);
                let mut k: usize = 0;
                while k < names.len()
                    invariant
                        k <= names@.len(),
                        nv == text::texts(names@),
                        text::texts(all@) == with_new(start, nv.take(k as int)),
                    decreases names@.len() - k,
                {
                    let ghost before = text::texts(all@);
                    assert(nv.take(k as int + 1).drop_last() =~= nv.take(k as int));
                    assert(nv.take(k as int + 1).last() == names@[k as int]@);
                    if !contains_text(&all, &names[k]) {
                        all.push(names[k].clone());
                        assert(text::texts(all@) =~= before.push(names@[k as int]@));
                    }
                    k += 1;
                }
                assert(nv.take(names@.len() as int) =~= nv);
            },
            None => {},
        }
        i += 1;
    }
    assert(lv.take(ls@.len() as int) =~= lv);
    assert(text::texts(all@).len() == all@.len());
    if all.len() == 0 {
        None
    } else {
        Some(all)
    }
}

/// Every change hash is named once.
pub proof fn changes_are_distinct(ls: Seq<Seq<char>>)
    ensures
        changes_in(ls).no_duplicates(),
    decreases ls.len(),
{
    if ls.len() > 0 {
        changes_are_distinct(ls.drop_last());
        let t = text::trimmed(ls.last());
        if text::has_prefix(t, "Atomic-Changes:"@) {
            lemma_with_new_distinct(
                changes_in(ls.drop_last()),
                change_names(t.skip("Atomic-Changes:"@.len() as int)),
            );
        }
    }
}

proof fn lemma_with_new_distinct(all: Seq<Seq<char>>, names: Seq<Seq<char>>)
    requires
        all.no_duplicates(),
    ensures
        with_new(all, names).no_duplicates(),
        forall|n: Seq<char>| #[trigger]
            with_new(all, names).contains(n) == (all.contains(n) || names.contains(n)),
    decreases names.len(),
{
    if names.len() > 0 {
        let before = with_new(all, names.drop_last());
        lemma_with_new_distinct(all, names.drop_last());
        assert forall|n: Seq<char>| #[trigger]
            with_new(all, names).contains(n) == (all.contains(n) || names.contains(n)) by {
            assert(before.contains(n) == (all.contains(n) || names.drop_last().contains(n)));
            assert(names =~= names.drop_last().push(names.last()));
            if names.drop_last().contains(n) {
                let k: int = choose|k: int|
                    0 <= k < names.drop_last().len() && names.drop_last()[k] == n;
                assert(names[k] == n);
            }
            if names.contains(n) && n != names.last() {
                let k: int = choose|k: int| 0 <= k < names.len() && names[k] == n;
                assert(names.drop_last()[k] == n);
            }
            if n == names.last() {
                assert(names[names.len() - 1] == n);
            }
            if !before.contains(names.last()) {
                let now = before.push(names.last());
                if before.contains(n) {
                    let k: int = choose|k: int| 0 <= k < before.len() && before[k] == n;
                    assert(now[k] == n);
                }
                assert(now[before.len() as int] == names.last());
                if now.contains(n) && n != names.last() {
                    let k: int = choose|k: int| 0 <= k < now.len() && now[k] == n;
                    assert(before[k] == n);
                }
            }
        }
    }
}

/// Every block counts: a hash is collected exactly when some
/// `Atomic-Changes` line names it.
pub proof fn every_named_change_is_collected(ls: Seq<Seq<char>>, n: Seq<char>)
    ensures
        changes_in(ls).contains(n) <==> exists|i: int|
            0 <= i < ls.len() && text::has_prefix(
                text::trimmed(#[trigger] ls[i]),
                "Atomic-Changes:"@,
            ) && change_names(
                text::trimmed(ls[i]).skip("Atomic-Changes:"@.len() as int),
            ).contains(n),
    decreases ls.len(),
{
    if ls.len() > 0 {
        let rest = ls.drop_last();
        every_named_change_is_collected(rest, n);
        changes_are_distinct(rest);
        let t = text::trimmed(ls.last());
        if text::has_prefix(t, "Atomic-Changes:"@) {
            lemma_with_new_distinct(
                changes_in(rest),
                change_names(t.skip("Atomic-Changes:"@.len() as int)),
            );
        }
        if changes_in(rest).contains(n) {
            let i: int = choose|i: int|
                0 <= i < rest.len() && text::has_prefix(
                    text::trimmed(#[trigger] rest[i]),
                    "Atomic-Changes:"@,
                ) && change_names(
                    text::trimmed(rest[i]).skip("Atomic-Changes:"@.len() as int),
                ).contains(n);
            assert(ls[i] == rest[i]);
        }
        if exists|i: int|
            0 <= i < ls.len() && text::has_prefix(
                text::trimmed(#[trigger] ls[i]),
                "Atomic-Changes:"@,
            ) && change_names(
                text::trimmed(ls[i]).skip("Atomic-Changes:"@.len() as int),
            ).contains(n) {
            let i: int = choose|i: int|
                0 <= i < ls.len() && text::has_prefix(
                    text::trimmed(#[trigger] ls[i]),
                    "Atomic-Changes:"@,
                ) && change_names(
                    text::trimmed(ls[i]).skip("Atomic-Changes:"@.len() as int),
                ).contains(n);
            if i < rest.len() {
                assert(rest[i] == ls[i]);
            }
        } else {
            assert(ls[ls.len() - 1] == ls.last());
        }
    }
}

/// A view state: the bytes of its Merkle value, read as two big-endian
/// numbers.
#[derive(Clone, Copy, Debug, PartialEq, Eq, Structural)]
pub struct Merkle {
    pub hi: u128,
    pub lo: u128,
}

/// The trailers of a pushed commit.
#[derive(Debug)]
pub struct PushTrailer {
    /// Value of the `Atomic-View` trailer.
    pub view: String,
    /// Value of the `Atomic-State` trailer.
    pub state: Merkle,
    /// Change roots named by the authoritative trailing block.
    pub changes: Vec<String>,
}

/// A `PushTrailer` as a value.
pub struct PushTrailerView {
    pub view: Seq<char>,
    pub state: Merkle,
    pub changes: Seq<Seq<char>>,
}

impl View for PushTrailer {
    type V = PushTrailerView;

    open spec fn view(&self) -> PushTrailerView {
        PushTrailerView {
            view: self.view@,
            state: self.state,
            changes: text::texts(self.changes@),
        }
    }
}

/// The view of optional push trailers.
pub open spec fn opt_push_trailer(o: Option<PushTrailer>) -> Option<PushTrailerView> {
    match o {
        Some(t) => Some(t@),
        None => None,
    }
}

/// What the lines of a trailing block say so far.
#[derive(Debug)]
pub struct PushFields {
    pub view: Option<String>,
    pub state: Option<String>,
    pub changes: Vec<String>,
}

/// A `PushFields` as a value.
pub struct PushFieldsView {
    pub view: Option<Seq<char>>,
    pub state: Option<Seq<char>>,
    pub changes: Seq<Seq<char>>,
}

impl View for PushFields {
    type V = PushFieldsView;

    open spec fn view(&self) -> PushFieldsView {
        PushFieldsView {
            view: text::opt_text(self.view),
            state: text::opt_text(self.state),
            changes: text::texts(self.changes@),
        }
    }
}

/// Publication claims that the block may hold besides.
pub open spec fn publication_claim(t: Seq<char>) -> bool {
    ||| text::has_prefix(t, "Atomic-Manifest:"@)
    ||| text::has_prefix(t, "Atomic-Policy:"@)
    ||| text::has_prefix(t, "Atomic-Algorithm:"@)
    ||| text::has_prefix(t, "Atomic-Tree:"@)
}

/// Identity headers that a push writes into the block besides. A co-author
/// is one behind the header of an agent.
pub open spec fn identity_header(before: Seq<Seq<char>>, t: Seq<char>) -> bool {
    ||| text::has_prefix(t, "atomic-set "@)
    ||| text::has_prefix(t, "atomic-state "@)
    ||| text::has_prefix(t, "atomic-author "@)
    ||| text::has_prefix(t, "atomic-agent "@)
    ||| text::has_prefix(t, "Co-authored-by:"@) && before.len() > 0 && text::has_prefix(
        text::trimmed(before.last()),
        "atomic-agent "@,
    )
}

/// What a trailing block says once a further line is read behind the lines
/// `before`; `None` when the line is no trailer.
pub open spec fn push_step(f: PushFieldsView, before: Seq<Seq<char>>, line: Seq<char>) -> Option<
    PushFieldsView,
> {
    let t = text::trimmed(line);
    if text::has_prefix(t, "Atomic-View:"@) {
        Some(
            PushFieldsView {
                view: Some(text::trimmed(t.skip("Atomic-View:"@.len() as int))),
                ..f
            },
        )
    } else if text::has_prefix(t, "Atomic-State:"@) {
        Some(
            PushFieldsView {
                state: Some(text::trimmed(t.skip("Atomic-State:"@.len() as int))),
                ..f
            },
        )
    } else if text::has_prefix(t, "Atomic-Changes:"@) {
        Some(
            PushFieldsView {
                changes: f.changes + change_names(t.skip("Atomic-Changes:"@.len() as int)),
                ..f
            },
        )
    } else if publication_claim(t) || identity_header(before, t) {
        Some(f)
    } else {
        None
    }
}

/// What the lines `ls` of a trailing block say; `None` when one of them is
/// no trailer.
pub open spec fn push_fields(ls: Seq<Seq<char>>) -> Option<PushFieldsView>
    decreases ls.len(),
{
    if ls.len() == 0 {
        Some(PushFieldsView { view: None, state: None, changes: seq![] })
    } else {
        match push_fields(ls.drop_last()) {
            None => None,
            Some(f) => push_step(f, ls.drop_last(), ls.last()),
        }
    }
}

/// The last paragraph of a message: the text behind the last empty line,
/// trailing white space removed.
pub open spec fn last_paragraph(message: Seq<char>) -> Seq<char> {
    let m = text::trimmed_end(message);
    match text::rfind_text(m, "\n\n"@) {
        Some(i) => m.skip(i + 2),
        None => m,
    }
}

/// What the trailing block of a message says.
pub open spec fn message_fields(message: Seq<char>) -> Option<PushFieldsView> {
    push_fields(text::lines_of(last_paragraph(message)))
}

/// The push trailers of a message, given how the text of its last
/// `Atomic-State` line decodes.
pub open spec fn push_trailer_of(message: Seq<char>, decoded: Option<Merkle>) -> Option<
    PushTrailerView,
> {
    match message_fields(message) {
        Some(f) => if f.view is Some && f.state is Some && decoded is Some {
            Some(PushTrailerView { view: f.view->0, state: decoded->0, changes: f.changes })
        } else {
            None
        },
        None => None,
    }
}

/// The last paragraph of a message.
fn trailing_block(message: &str) -> (r: String)
    ensures
        r@ == last_paragraph(message@),
{
    let m = trim_end(message);
    let cs = chars_of(&m);
    proof {
        reveal_strlit("\n\n");
    }
    match rfind_in(&cs, "\n\n") {
        Some(i) => {
            let r = string_of(&cs, i + 2, cs.len());
            assert(r@ =~= cs@.skip(i + 2));
            r
        },
        None => m,
    }
}

/// What the trailing block of a message says; `None` when the block holds
/// anything but trailers.
pub fn push_trailer_fields(message: &str) -> (r: Option<PushFields>)
    ensures
        match r {
            Some(f) => message_fields(message@) == Some(f@),
            None => message_fields(message@) is None,
        },
{
    let block = trailing_block(message);
    let ls = lines(&block);
    let mut view: Option<String> = None;
    let mut state: Option<String> = None;
    let mut changes: Vec<String> = Vec::new();
    let ghost lv = text::texts(ls@);
    let mut i: usize = 0;
    assert(text::texts(changes@) =~= Seq::<Seq<char>>::empty());
    while i < ls.len()
        invariant
            i <= ls@.len(),
            lv == text::texts(ls@),
            message_fields(message@) == push_fields(lv),
            push_fields(lv.take(i as int)) == Some(
                PushFieldsView {
                    view: text::opt_text(view),
                    state: text::opt_text(state),
                    changes: text::texts(changes@),
                },
            ),
        decreases ls@.len() - i,
    {
        assert(lv.take(i as int + 1).drop_last() =~= lv.take(i as int));
        assert(lv.take(i as int + 1).last() == ls@[i as int]@);
        let line = trim(&ls[i]);
        let behind_agent: bool = i > 0 && starts_with(&trim(&ls[i - 1]), "atomic-agent ");
        assert(i > 0 ==> lv.take(i as int).last() == ls@[i - 1]@);
        if let Some(value) = strip_prefix(&line, "Atomic-View:") {
            view = Some(trim(&value));
        } else if let Some(value) = strip_prefix(&line, "Atomic-State:") {
            state = Some(trim(&value));
        } else if let Some(value) = strip_prefix(&line, "Atomic-Changes:") {
            let mut more = split_atomic_changes_value(&value);
            let ghost a = text::texts(changes@);
            let ghost b = text::texts(more@);
            changes.append(&mut more);
            assert(text::texts(changes@) =~= a + b);
        } else if starts_with(&line, "Atomic-Manifest:") || starts_with(&line, "Atomic-Policy:")
            || starts_with(&line, "Atomic-Algorithm:") || starts_with(&line, "Atomic-Tree:") {
        } else if starts_with(&line, "atomic-set ") || starts_with(&line, "atomic-state ")
            || starts_with(&line, "atomic-author ") || starts_with(&line, "atomic-agent ") || (
        starts_with(&line, "Co-authored-by:") && behind_agent) {
        } else {
            proof {
                assert(push_fields(lv.take(i as int + 1)) is None);
                lemma_no_fields(lv, i as int + 1);
            }
            return None;
        }
        i += 1;
    }
    assert(lv.take(ls@.len() as int) =~= lv);
    Some(PushFields { view, state, changes })
}

/// A block that starts with anything but trailers is no trailer block.
proof fn lemma_no_fields(ls: Seq<Seq<char>>, n: int)
    requires
        0 <= n <= ls.len(),
        push_fields(ls.take(n)) is None,
    ensures
        push_fields(ls) is None,
    decreases ls.len() - n,
{
    if n == ls.len() {
        assert(ls.take(n) =~= ls);
    } else {
        assert(ls.take(n + 1).drop_last() =~= ls.take(n));
        lemma_no_fields(ls, n + 1);
    }
}

/// The text of the `Atomic-State` trailer that decides about a pushed
/// commit; what it decodes to is handed to `parse_push_trailer`.
pub fn push_state_text(message: &str) -> (r: Option<String>)
    ensures
        text::opt_text(r) == (match message_fields(message@) {
            Some(f) => f.state,
            None => None,
        }),
{
    match push_trailer_fields(message) {
        Some(f) => f.state,
        None => None,
    }
}

/// Parse the trailers of a pushed commit: only when they form the message's
/// final paragraph, with the claims and the identity headers that a push
/// writes among them. `decoded` is the view state that the text of the
/// `Atomic-State` trailer decodes to, if it does.
pub fn parse_push_trailer(message: &str, decoded: Option<Merkle>) -> (r: Option<PushTrailer>)
    ensures
        opt_push_trailer(r) == push_trailer_of(message@, decoded),
{
    match push_trailer_fields(message) {
        Some(f) => {
            match (f.view, f.state, decoded) {
                (Some(view), Some(_), Some(state)) => Some(
                    PushTrailer { view, state, changes: f.changes },
                ),
                _ => None,
            }
        },
        None => None,
    }
}

/// The number of blank lines at the start of a list.
pub open spec fn leading_blank(ls: Seq<Seq<char>>) -> nat
    decreases ls.len(),
{
    if ls.len() > 0 && text::trimmed(ls[0]).len() == 0 {
        1 + leading_blank(ls.drop_first())
    } else {
        0
    }
}

/// The body of a message: its lines behind the subject, without the blank
/// ones that start them.
pub open spec fn body_lines(ls: Seq<Seq<char>>) -> Seq<Seq<char>> {
    let rest = ls.skip(1);
    rest.skip(leading_blank(rest) as int)
}

/// Subject and description of a message.
pub open spec fn message_parts(message: Seq<char>) -> (Seq<char>, Option<Seq<char>>) {
    let ls = text::lines_of(message);
    if ls.len() == 0 {
        ("(no message)"@, None)
    } else if body_lines(ls).len() == 0 {
        (text::trimmed(ls[0]), None)
    } else {
        (text::trimmed(ls[0]), Some(text::trimmed(text::joined(body_lines(ls), "\n"@))))
    }
}

/// Parse a commit message into subject and description.
pub fn parse_commit_message(message: &str) -> (r: (String, Option<String>))
    ensures
        (r.0@, text::opt_text(r.1)) == message_parts(message@),
{
    let ls = lines(message);
    let ghost lv = text::texts(ls@);
    assert(lv.len() == ls@.len());
    if ls.len() == 0 {
        return ("(no message)".to_owned(), None);
    }
    assert(lv[0] == ls@[0]@);
    let subject = trim(&ls[0]);
    let mut i: usize = 1;
    let ghost rest = lv.skip(1);
    assert(rest.skip(0) =~= rest);
    while i < ls.len()
        invariant
            1 <= i <= ls@.len(),
            lv == text::texts(ls@),
            rest == lv.skip(1),
            leading_blank(rest) == i - 1 + leading_blank(rest.skip(i - 1)),
        ensures
            1 <= i <= ls@.len(),
            leading_blank(rest) == i - 1,
        decreases ls@.len() - i,
    {
        assert(rest.skip(i - 1)[0] == ls@[i as int]@);
        assert(rest.skip(i - 1).drop_first() =~= rest.skip(i as int));
        let t = trim(&ls[i]);
        if !t.as_str().is_empty() {
            break;
        }
        i += 1;
    }
    let mut body: Vec<String> = Vec::new();
    let from: usize = i;
    assert(text::texts(body@) =~= body_lines(lv).take(0));
    while i < ls.len()
        invariant
            1 <= from <= i <= ls@.len(),
            lv == text::texts(ls@),
            leading_blank(lv.skip(1)) == from - 1,
            text::texts(body@) == body_lines(lv).take(i - from),
        decreases ls@.len() - i,
    {
        let ghost before = text::texts(body@);
        body.push(ls[i].clone());
        assert(body_lines(lv)[i - from] == ls@[i as int]@);
        assert(text::texts(body@) =~= before.push(ls@[i as int]@));
        assert(text::texts(body@) =~= body_lines(lv).take(i + 1 - from));
        i += 1;
    }
    assert(body_lines(lv).take(i - from) =~= body_lines(lv));
    assert(text::texts(body@).len() == body@.len());
    if body.len() == 0 {
        (subject, None)
    } else {
        let joined = join(&body, "\n");
        (subject, Some(trim(&joined)))
    }
}

/// The complete text of a subject and its description.
pub open spec fn full_text(subject: Seq<char>, description: Option<Seq<char>>) -> Seq<char> {
    match description {
        Some(d) => subject + "\n\n"@ + d,
        None => subject,
    }
}

/// The complete message of a subject and its description.
pub fn full_message(subject: &str, description: Option<&str>) -> (r: String)
    ensures
        r@ == full_text(subject@, text::opt_str(description)),
{
    let mut m: String = subject.to_owned();
    match description {
        Some(d) => {
            m.append("\n\n");
            m.append(d);
        },
        None => {},
    }
    m
}

/// Whether `c` is an ASCII digit.
pub open spec fn is_digit(c: char) -> bool {
    '0' <= c && c <= '9'
}

/// The number that decimal digits stand for.
pub open spec fn digits_value(s: Seq<char>) -> nat
    decreases s.len(),
{
    if s.len() == 0 {
        0
    } else {
        10 * digits_value(s.drop_last()) + (s.last() as nat - 48) as nat
    }
}

/// The number that decimal digits stand for, when 32 bits hold it.
pub open spec fn unsigned_of(d: Seq<char>) -> Option<u32> {
    if d.len() > 0 && (forall|k: int| 0 <= k < d.len() ==> is_digit(#[trigger] d[k]))
        && digits_value(d) <= u32::MAX {
        Some(digits_value(d) as u32)
    } else {
        None
    }
}

/// The number that `s` stands for: decimal digits, a plus sign allowed
/// before them, no more than 32 bits.
pub open spec fn u32_of(s: Seq<char>) -> Option<u32> {
    if s.len() > 0 && s[0] == '+' {
        unsigned_of(s.drop_first())
    } else {
        unsigned_of(s)
    }
}

proof fn lemma_digits_grow(s: Seq<char>, n: int)
    requires
        0 <= n <= s.len(),
    ensures
        digits_value(s.take(n)) <= digits_value(s),
    decreases s.len() - n,
{
    if n == s.len() {
        assert(s.take(n) =~= s);
    } else {
        lemma_digits_grow(s, n + 1);
        assert(s.take(n + 1).drop_last() =~= s.take(n));
    }
}

/// The number that the characters of `cs` from `from` to `to` stand for.
fn parse_u32(cs: &Vec<char>, from: usize, to: usize) -> (r: Option<u32>)
    requires
        from <= to <= cs@.len(),
    ensures
        r == u32_of(cs@.subrange(from as int, to as int)),
{
    let ghost s = cs@.subrange(from as int, to as int);
    let mut a: usize = from;
    if a < to && cs[a] == '+' {
        a += 1;
    }
    let ghost d = cs@.subrange(a as int, to as int);
    assert(d =~= (if s.len() > 0 && s[0] == '+' {
        s.drop_first()
    } else {
        s
    }));
    if a == to {
        return None;
    }
    let mut value: u64 = 0;
    let mut i: usize = a;
    assert(d.take(0) =~= Seq::<char>::empty());
    while i < to
        invariant
            a <= i <= to <= cs@.len(),
            d == cs@.subrange(a as int, to as int),
            u32_of(cs@.subrange(from as int, to as int)) == unsigned_of(d),
            from <= a,
            value == digits_value(d.take(i - a)),
            value <= u32::MAX,
            forall|k: int| 0 <= k < i - a ==> is_digit(#[trigger] d[k]),
        decreases to - i,
    {
        let c: char = cs[i];
        assert(c == d[i - a]);
        if !('0' <= c && c <= '9') {
            assert(!is_digit(d[i - a]));
            return None;
        }
        let n: u64 = c as u64 - 48;
        assert(d.take(i - a + 1).drop_last() =~= d.take(i - a));
        value = value * 10 + n;
        assert(value == digits_value(d.take(i - a + 1)));
        if value > u32::MAX as u64 {
            proof {
                lemma_digits_grow(d, i - a + 1);
            }
            return None;
        }
        i += 1;
    }
    assert(d.take(to - a) =~= d);
    Some(value as u32)
}

/// Length of the run of digits that starts `s`.
pub open spec fn digit_run(s: Seq<char>) -> nat
    decreases s.len(),
{
    if s.len() > 0 && is_digit(s[0]) {
        1 + digit_run(s.drop_first())
    } else {
        0
    }
}

/// The digits that start `s`.
pub open spec fn leading_digits(s: Seq<char>) -> Seq<char> {
    s.take(digit_run(s) as int)
}

fn scan_digits(cs: &Vec<char>, from: usize) -> (r: usize)
    requires
        from <= cs@.len(),
    ensures
        from <= r <= cs@.len(),
        r - from == digit_run(cs@.skip(from as int)),
        cs@.subrange(from as int, r as int) == leading_digits(cs@.skip(from as int)),
{
    let mut i: usize = from;
    while i < cs.len() && '0' <= cs[i] && cs[i] <= '9'
        invariant
            from <= i <= cs@.len(),
            i - from + digit_run(cs@.skip(i as int)) == digit_run(cs@.skip(from as int)),
        decreases cs@.len() - i,
    {
        assert(cs@.skip(i as int).drop_first() =~= cs@.skip(i as int + 1));
        i += 1;
    }
    assert(cs@.subrange(from as int, i as int) =~= leading_digits(cs@.skip(from as int)));
    i
}

/// The number in the last `(#N)` of a line.
pub open spec fn parenthesized_number(t: Seq<char>) -> Option<u32> {
    match text::rfind_text(t, "(#"@) {
        Some(start) => match text::find_from(t, ")"@, start) {
            Some(end) => u32_of(t.subrange(start + 2, end)),
            None => None,
        },
        None => None,
    }
}

/// The number behind the first `pull request #` of a line.
pub open spec fn pull_request_number(t: Seq<char>) -> Option<u32> {
    match text::find_text(t, "pull request #"@) {
        Some(i) => u32_of(leading_digits(t.skip(i + 14))),
        None => None,
    }
}

/// The number behind the last `!` of a line that refers to a merge request.
pub open spec fn merge_request_number(t: Seq<char>) -> Option<u32> {
    match text::rfind_text(t, "!"@) {
        Some(i) => match u32_of(leading_digits(t.skip(i + 1))) {
            Some(n) => if text::contains_sub(t, "merge request"@) || text::has_suffix(
                t,
                "!"@ + text::decimal(n as nat),
            ) {
                Some(n)
            } else {
                None
            },
            None => None,
        },
        None => None,
    }
}

/// The number behind a leading `Merged PR `.
pub open spec fn merged_pr_number(t: Seq<char>) -> Option<u32> {
    if text::has_prefix(t, "Merged PR "@) {
        u32_of(leading_digits(t.skip(10)))
    } else {
        None
    }
}

/// The pull-request number that one line names.
pub open spec fn line_pr_number(line: Seq<char>) -> Option<u32> {
    let t = text::trimmed(line);
    if parenthesized_number(t) is Some {
        parenthesized_number(t)
    } else if pull_request_number(t) is Some {
        pull_request_number(t)
    } else if merge_request_number(t) is Some {
        merge_request_number(t)
    } else {
        merged_pr_number(t)
    }
}

/// The pull-request number that the first of `ls` with one names.
pub open spec fn pr_number_in(ls: Seq<Seq<char>>) -> Option<u32>
    decreases ls.len(),
{
    if ls.len() == 0 {
        None
    } else {
        match line_pr_number(ls[0]) {
            Some(n) => Some(n),
            None => pr_number_in(ls.drop_first()),
        }
    }
}

fn parse_parenthesized(t: &Vec<char>) -> (r: Option<u32>)
    ensures
        r == parenthesized_number(t@),
{
    proof {
        reveal_strlit("(#");
        reveal_strlit(")");
        text::lemma_rfind_upto(t@, "(#"@, t@.len() - "(#"@.len());
    }
    match rfind_in(t, "(#") {
        Some(start) => {
            match find_in(t, ")", start) {
                Some(end) => {
                    proof {
                        text::lemma_find_from(t@, ")"@, start as int);
                        assert(t@.subrange(start as int, start + 2) == "(#"@);
                        assert(t@.subrange(start as int, start + 2)[0] == t@[start as int]);
                        assert(t@.subrange(start as int, start + 2)[1] == t@[start + 1]);
                        assert(t@.subrange(end as int, end + 1)[0] == t@[end as int]);
                        assert(t@[start as int] == '(');
                        assert(t@[start + 1] == '#');
                        assert(t@[end as int] == ')');
                        assert(end >= start + 2);
                    }
                    parse_u32(t, start + 2, end)
                },
                None => None,
            }
        },
        None => None,
    }
}

fn parse_pull_request(t: &Vec<char>) -> (r: Option<u32>)
    ensures
        r == pull_request_number(t@),
{
    proof {
        reveal_strlit("pull request #");
    }
    match find_in(t, "pull request #", 0) {
        Some(i) => {
            let a: usize = i + 14;
            let b: usize = scan_digits(t, a);
            parse_u32(t, a, b)
        },
        None => None,
    }
}

fn parse_merge_request(line: &str, t: &Vec<char>) -> (r: Option<u32>)
    requires
        t@ == line@,
    ensures
        r == merge_request_number(t@),
{
    proof {
        reveal_strlit("!");
    }
    match rfind_in(t, "!") {
        Some(i) => {
            let a: usize = i + 1;
            let b: usize = scan_digits(t, a);
            match parse_u32(t, a, b) {
                Some(n) => {
                    let mut tail: String = "!".to_owned();
                    tail.append(&to_decimal(n as u64));
                    if has_sub(line, "merge request") || ends_with(line, &tail) {
                        Some(n)
                    } else {
                        None
                    }
                },
                None => None,
            }
        },
        None => None,
    }
}

fn parse_merged_pr(line: &str, t: &Vec<char>) -> (r: Option<u32>)
    requires
        t@ == line@,
    ensures
        r == merged_pr_number(t@),
{
    proof {
        reveal_strlit("Merged PR ");
    }
    if starts_with(line, "Merged PR ") {
        let b: usize = scan_digits(t, 10);
        parse_u32(t, 10, b)
    } else {
        None
    }
}

/// The pull-request number that one line names.
fn parse_line_pr_number(line: &str) -> (r: Option<u32>)
    ensures
        r == line_pr_number(line@),
{
    let line = trim(line);
    let t = chars_of(&line);
    if let Some(n) = parse_parenthesized(&t) {
        return Some(n);
    }
    if let Some(n) = parse_pull_request(&t) {
        return Some(n);
    }
    if let Some(n) = parse_merge_request(&line, &t) {
        return Some(n);
    }
    parse_merged_pr(&line, &t)
}

/// Parse a pull-request or merge-request number from a commit message, in
/// the formats of the common forges: `(#N)`, `pull request #N`,
/// `merge request ...!N` and `Merged PR N`.
pub fn parse_pr_number(message: &str) -> (r: Option<u32>)
    ensures
        r == pr_number_in(text::lines_of(message@)),
{
    let ls = lines(message);
    let mut i: usize = 0;
    let ghost lv = text::texts(ls@);
    assert(lv.skip(0) =~= lv);
    while i < ls.len()
        invariant
            i <= ls@.len(),
            lv == text::texts(ls@),
            lv == text::lines_of(message@),
            pr_number_in(lv.skip(i as int)) == pr_number_in(lv),
        decreases ls@.len() - i,
    {
        assert(lv.skip(i as int)[0] == ls@[i as int]@);
        assert(lv.skip(i as int).drop_first() =~= lv.skip(i as int + 1));
        if let Some(n) = parse_line_pr_number(&ls[i]) {
            return Some(n);
        }
        i += 1;
    }
    None
}

/// Whether one of `ls` is a bullet.
pub open spec fn has_bullet(ls: Seq<Seq<char>>) -> bool {
    exists|i: int| 0 <= i < ls.len() && text::has_prefix(text::trimmed(#[trigger] ls[i]), "* "@)
}

/// The first of `ls` that refers to a merge request.
pub open spec fn merge_request_line(ls: Seq<Seq<char>>) -> Option<Seq<char>>
    decreases ls.len(),
{
    if ls.len() == 0 {
        None
    } else if text::contains_sub(ls[0], "See merge request"@) {
        Some(ls[0])
    } else {
        merge_request_line(ls.drop_first())
    }
}

/// The number of the squash merge that the lines of a message describe.
pub open spec fn squash_number(ls: Seq<Seq<char>>) -> Option<u32> {
    if ls.len() < 2 {
        None
    } else if pr_number_in(text::lines_of(ls[0])) is Some && has_bullet(ls.skip(2)) {
        pr_number_in(text::lines_of(ls[0]))
    } else {
        match merge_request_line(ls.skip(1)) {
            Some(l) => pr_number_in(text::lines_of(l)),
            None => if text::has_prefix(ls[0], "Merged PR "@) {
                pr_number_in(text::lines_of(ls[0]))
            } else {
                None
            },
        }
    }
}

fn any_bullet(ls: &Vec<String>, from: usize) -> (r: bool)
    requires
        from <= ls@.len(),
    ensures
        r == has_bullet(text::texts(ls@).skip(from as int)),
{
    let mut i: usize = from;
    let ghost rest = text::texts(ls@).skip(from as int);
    while i < ls.len()
        invariant
            from <= i <= ls@.len(),
            rest == text::texts(ls@).skip(from as int),
            forall|k: int|
                0 <= k < i - from ==> !text::has_prefix(text::trimmed(#[trigger] rest[k]), "* "@),
        decreases ls@.len() - i,
    {
        assert(rest[i - from] == ls@[i as int]@);
        let t = trim(&ls[i]);
        if starts_with(&t, "* ") {
            return true;
        }
        i += 1;
    }
    false
}

/// Detect the squash-merge formats of the common forges: a numbered title
/// above bullets, a merge-request reference in the body, or a `Merged PR`
/// title.
pub fn parse_squash_merge_format(message: &str) -> (r: Option<u32>)
    ensures
        r == squash_number(text::lines_of(message@)),
{
    let ls = lines(message);
    let ghost lv = text::texts(ls@);
    assert(lv.len() == ls@.len());
    if ls.len() < 2 {
        return None;
    }
    assert(lv[0] == ls@[0]@);
    let first = parse_pr_number(&ls[0]);
    if first.is_some() && any_bullet(&ls, 2) {
        return first;
    }
    let mut i: usize = 1;
    while i < ls.len()
        invariant
            1 <= i <= ls@.len(),
            lv == text::texts(ls@),
            lv == text::lines_of(message@),
            merge_request_line(lv.skip(i as int)) == merge_request_line(lv.skip(1)),
            ls@.len() >= 2,
            squash_number(lv) == (match merge_request_line(lv.skip(1)) {
                Some(l) => pr_number_in(text::lines_of(l)),
                None => if text::has_prefix(lv[0], "Merged PR "@) {
                    pr_number_in(text::lines_of(lv[0]))
                } else {
                    None
                },
            }),
        decreases ls@.len() - i,
    {
        assert(lv.skip(i as int)[0] == ls@[i as int]@);
        assert(lv.skip(i as int).drop_first() =~= lv.skip(i as int + 1));
        if has_sub(&ls[i], "See merge request") {
            return parse_pr_number(&ls[i]);
        }
        i += 1;
    }
    if starts_with(&ls[0], "Merged PR ") {
        return first;
    }
    None
}

proof fn lemma_written_number(n: u32)
    ensures
        u32_of(text::decimal(n as nat)) == Some(n),
{
    let d = text::decimal(n as nat);
    text::decimals_stand_for_their_number(n as nat);
    lemma_same_value(d);
    assert(d[0] != '+');
    assert forall|k: int| 0 <= k < d.len() implies is_digit(#[trigger] d[k]) by {
        assert('0' <= d[k] <= '9');
    }
}

proof fn lemma_same_value(d: Seq<char>)
    ensures
        digits_value(d) == text::value_in(d, 10),
    decreases d.len(),
{
    if d.len() > 0 {
        lemma_same_value(d.drop_last());
    }
}

proof fn lemma_in_brackets(title: Seq<char>, d: Seq<char>)
    requires
        forall|k: int| 0 <= k < d.len() ==> is_digit(#[trigger] d[k]),
    ensures
        parenthesized_number(title + "(#"@ + d + ")"@) == u32_of(d),
{
    reveal_strlit("(#");
    reveal_strlit(")");
    let t = title + "(#"@ + d + ")"@;
    let at = title.len() as int;
    let end = at + 2 + d.len();
    assert(t.subrange(at, at + 2) =~= "(#"@);
    assert forall|j: int| at < j implies !text::occurs_at(t, "(#"@, j) by {
        if text::occurs_at(t, "(#"@, j) {
            assert(t.subrange(j, j + 2)[0] == t[j]);
            if j >= at + 2 && j < end {
                assert(t[j] == d[j - at - 2]);
            }
        }
    }
    text::lemma_rfind_upto(t, "(#"@, t.len() - 2);
    assert(text::occurs_at(t, "(#"@, at));
    assert(text::rfind_text(t, "(#"@) == Some(at));
    assert(t.subrange(end, end + 1) =~= ")"@);
    assert(text::occurs_at(t, ")"@, end));
    assert forall|j: int| at <= j < end implies !text::occurs_at(t, ")"@, j) by {
        if text::occurs_at(t, ")"@, j) {
            assert(t.subrange(j, j + 1)[0] == t[j]);
            if j >= at + 2 {
                assert(t[j] == d[j - at - 2]);
            }
        }
    }
    lemma_first_found(t, ")"@, at, end);
    assert(t.subrange(at + 2, end) =~= d);
}

/// A title that ends with the number of its request in brackets, the way a
/// forge writes it on a squash, names that request.
pub proof fn a_numbered_title_names_its_request(title: Seq<char>, n: u32)
    requires
        title.len() == 0 || !text::whitespace(title[0]),
    ensures
        line_pr_number(title + "(#"@ + text::decimal(n as nat) + ")"@) == Some(n),
{
    let d = text::decimal(n as nat);
    let t = title + "(#"@ + d + ")"@;
    lemma_written_number(n);
    text::decimals_stand_for_their_number(n as nat);
    lemma_in_brackets(title, d);
    assert(text::trimmed(t) == t) by {
        reveal_strlit("(#");
        reveal_strlit(")");
        assert(t.last() == ')');
        assert(t[0] == (if title.len() == 0 {
            '('
        } else {
            title[0]
        }));
    }
}

/// What stands nowhere before `k` is found there first.
proof fn lemma_first_found(s: Seq<char>, p: Seq<char>, i: int, k: int)
    requires
        0 <= i <= k,
        text::occurs_at(s, p, k),
        forall|j: int| i <= j < k ==> !#[trigger] text::occurs_at(s, p, j),
    ensures
        text::find_from(s, p, i) == Some(k),
    decreases k - i,
{
    if i < k {
        lemma_first_found(s, p, i + 1, k);
    }
}

proof fn lemma_digits_end(d: Seq<char>, rest: Seq<char>)
    requires
        forall|k: int| 0 <= k < d.len() ==> is_digit(#[trigger] d[k]),
        rest.len() == 0 || !is_digit(rest[0]),
    ensures
        leading_digits(d + rest) == d,
    decreases d.len(),
{
    let s = d + rest;
    if d.len() == 0 {
        assert(s =~= rest);
        assert(leading_digits(s) =~= d);
    } else {
        let e = d.drop_first();
        assert forall|k: int| 0 <= k < e.len() implies is_digit(#[trigger] e[k]) by {
            assert(e[k] == d[k + 1]);
        }
        lemma_digits_end(e, rest);
        assert(s.drop_first() =~= e + rest);
        assert(s[0] == d[0]);
        lemma_run_within(e + rest);
        assert((e + rest).take(digit_run(e + rest) as int).len() == digit_run(e + rest));
        assert(digit_run(s) == d.len());
        assert(leading_digits(s) =~= d);
    }
}

proof fn lemma_run_within(s: Seq<char>)
    ensures
        digit_run(s) <= s.len(),
    decreases s.len(),
{
    if s.len() > 0 && is_digit(s[0]) {
        lemma_run_within(s.drop_first());
    }
}

/// A merge commit that begins the way a forge writes it names its request,
/// whatever branch follows, as long as no bracketed number does.
pub proof fn a_merged_request_is_named(rest: Seq<char>, n: u32)
    requires
        rest.len() > 0,
        !is_digit(rest[0]),
        !text::whitespace(rest.last()),
        parenthesized_number("Merge pull request #"@ + text::decimal(n as nat) + rest) is None,
    ensures
        line_pr_number("Merge pull request #"@ + text::decimal(n as nat) + rest) == Some(n),
{
    reveal_strlit("Merge pull request #");
    reveal_strlit("pull request #");
    let d = text::decimal(n as nat);
    let t = "Merge pull request #"@ + d + rest;
    lemma_written_number(n);
    text::decimals_stand_for_their_number(n as nat);
    assert(t[0] == 'M' && t.last() == rest.last());
    assert(text::trimmed(t) == t);
    assert(t.subrange(6, 20) =~= "pull request #"@);
    assert(text::occurs_at(t, "pull request #"@, 6));
    assert forall|j: int| 0 <= j < 6 implies !text::occurs_at(t, "pull request #"@, j) by {
        if text::occurs_at(t, "pull request #"@, j) {
            assert(t.subrange(j, j + 14)[0] == t[j]);
            assert(t[j] == "Merge pull request #"@[j]);
        }
    }
    lemma_first_found(t, "pull request #"@, 0, 6);
    assert(t.skip(20) =~= d + rest);
    lemma_digits_end(d, rest);
}

/// A squash that a forge wrote is recognised: a numbered title, an empty line
/// and a list of what went in make up the squash of that request.
pub proof fn a_written_squash_is_recognised(title: Seq<char>, n: u32, ls: Seq<Seq<char>>, k: int)
    requires
        title.len() == 0 || !text::whitespace(title[0]),
        forall|i: int| 0 <= i < title.len() ==> #[trigger] title[i] != '\n',
        ls.len() > 2,
        ls[0] == title + "(#"@ + text::decimal(n as nat) + ")"@,
        2 <= k < ls.len(),
        text::has_prefix(text::trimmed(ls[k]), "* "@),
    ensures
        squash_number(ls) == Some(n),
{
    reveal_strlit("(#");
    reveal_strlit(")");
    a_numbered_title_names_its_request(title, n);
    let d = text::decimal(n as nat);
    text::decimals_stand_for_their_number(n as nat);
    let t = ls[0];
    text::lemma_find_char(t, '\n');
    assert(text::find_char(t, '\n') is None) by {
        if let Some(i) = text::find_char(t, '\n') {
            if i < title.len() {
                assert(t[i] == title[i]);
            } else if i >= title.len() + 2 && i < title.len() + 2 + d.len() {
                assert(t[i] == d[i - title.len() - 2]);
            }
        }
    }
    assert(text::lines_of(t) == seq![t]);
    assert(pr_number_in(seq![t]) == Some(n));
    assert(ls.skip(2)[k - 2] == ls[k]);
}

proof fn lemma_lines_join(d: Seq<char>)
    requires
        d.len() > 0,
        !d.contains('\r'),
        d.last() != '\n',
    ensures
        text::lines_of(d).len() > 0,
        text::joined(text::lines_of(d), "\n"@) == d,
    decreases d.len(),
{
    reveal_strlit("\n");
    text::lemma_find_char(d, '\n');
    match text::find_char(d, '\n') {
        Some(i) => {
            let first = d.take(i);
            let rest = d.skip(i + 1);
            assert(i < d.len() - 1);
            assert(!rest.contains('\r')) by {
                if rest.contains('\r') {
                    let j = choose|j: int| 0 <= j < rest.len() && rest[j] == '\r';
                    assert(d[i + 1 + j] == '\r');
                }
            }
            lemma_lines_join(rest);
            assert(text::without_cr(first) == first) by {
                if first.len() > 0 {
                    assert(d[i - 1] == first.last());
                }
            }
            text::lemma_joined_front(first, text::lines_of(rest), "\n"@);
            assert(d =~= first + "\n"@ + rest);
        },
        None => {
            assert(text::lines_of(d) =~= seq![d]);
        },
    }
}

/// A message is taken apart the way it was put together: a subject of one
/// line and a description come out of their full text as they went in.
pub proof fn a_message_is_taken_apart_as_it_was_put_together(s: Seq<char>, d: Seq<char>)
    requires
        s.len() > 0,
        !s.contains('\n'),
        !text::whitespace(s[0]),
        !text::whitespace(s.last()),
        d.len() > 0,
        !d.contains('\r'),
        !text::whitespace(d[0]),
        !text::whitespace(d.last()),
    ensures
        message_parts(full_text(s, None)) == (s, None::<Seq<char>>),
        message_parts(full_text(s, Some(d))) == (s, Some(d)),
{
    reveal_strlit("\n\n");
    reveal_strlit("\n");
    let m = s + "\n\n"@ + d;
    let n = s.len() as int;
    assert(text::trimmed(s) == s);
    assert(text::trimmed(d) == d);
    text::lemma_find_char(s, '\n');
    if let Some(i) = text::find_char(s, '\n') {
        assert(s[i] == '\n');
    }
    assert(text::lines_of(s) =~= seq![s]);
    assert(seq![s].skip(1) =~= seq![]);
    text::lemma_find_char(m, '\n');
    assert(m[n] == '\n');
    match text::find_char(m, '\n') {
        Some(i) => {
            if i < n {
                assert(s[i] == m[i]);
                assert(s.contains('\n'));
            } else if i > n {
                assert(m[n] != '\n');
            }
        },
        None => {
            assert(m[n] != '\n');
        },
    }
    assert(m.take(n) =~= s);
    assert(text::without_cr(s) == s);
    let t = seq!['\n'] + d;
    assert(m.skip(n + 1) =~= t);
    text::lemma_find_char(t, '\n');
    assert(t[0] == '\n');
    assert(text::find_char(t, '\n') == Some(0int));
    assert(t.take(0) =~= seq![]);
    assert(t.skip(1) =~= d);
    lemma_lines_join(d);
    let body = text::lines_of(d);
    let ls = text::lines_of(m);
    let none = Seq::<char>::empty();
    assert(text::lines_of(t) =~= seq![none] + body);
    assert(ls =~= seq![s] + (seq![none] + body));
    let rest = ls.skip(1);
    assert(rest =~= seq![none] + body);
    assert(rest[0] == none);
    assert(text::trimmed(none) == none);
    assert(rest.drop_first() =~= body);
    lemma_first_line_filled(d);
    assert(leading_blank(body) == 0);
    assert(leading_blank(rest) == 1);
    assert(body_lines(ls) =~= body);
    assert(ls[0] == s);
}

/// The first line of a text that does not start with white space is not
/// blank.
proof fn lemma_first_line_filled(d: Seq<char>)
    requires
        d.len() > 0,
        !text::whitespace(d[0]),
    ensures
        text::lines_of(d).len() > 0,
        text::trimmed(text::lines_of(d)[0]).len() > 0,
{
    text::lemma_find_char(d, '\n');
    let l = text::lines_of(d)[0];
    match text::find_char(d, '\n') {
        Some(i) => {
            assert(i > 0);
            assert(l == text::without_cr(d.take(i)));
            assert(d.take(i)[0] == d[0]);
            assert(l.len() > 0 && l[0] == d[0]);
        },
        None => {
            assert(l == d);
        },
    }
    let ends = text::trimming_takes_white_space_only(l);
    if text::trimmed(l).len() == 0 {
        if ends.0.len() > 0 {
            assert(ends.0[0] == l[0]);
        } else {
            assert(ends.1[0] == l[0]);
        }
    }
}

/// The first line with a value gives it: nothing before it has the trailer,
/// and where no line has, nothing is read.
pub proof fn the_first_trailer_is_read(ls: Seq<Seq<char>>, p: Seq<char>)
    ensures
        match first_trailer(ls, p) {
            Some(v) => exists|i: int|
                0 <= i < ls.len() && trailer_line(#[trigger] ls[i], p) == Some(v) && forall|j: int|
                    0 <= j < i ==> trailer_line(#[trigger] ls[j], p) is None,
            None => forall|i: int| 0 <= i < ls.len() ==> trailer_line(#[trigger] ls[i], p) is None,
        },
    decreases ls.len(),
{
    if ls.len() > 0 {
        let t = ls.drop_first();
        the_first_trailer_is_read(t, p);
        if trailer_line(ls[0], p) is None {
            match first_trailer(t, p) {
                Some(v) => {
                    let i = choose|i: int|
                        0 <= i < t.len() && trailer_line(#[trigger] t[i], p) == Some(v) && forall|
                            j: int,
                        |
                            0 <= j < i ==> trailer_line(#[trigger] t[j], p) is None;
                    assert(ls[i + 1] == t[i]);
                    assert forall|j: int| 0 <= j < i + 1 implies trailer_line(
                        #[trigger] ls[j],
                        p,
                    ) is None by {
                        if j > 0 {
                            assert(ls[j] == t[j - 1]);
                        }
                    }
                },
                None => {
                    assert forall|j: int| 0 <= j < ls.len() implies trailer_line(
                        #[trigger] ls[j],
                        p,
                    ) is None by {
                        if j > 0 {
                            assert(ls[j] == t[j - 1]);
                        }
                    }
                },
            }
        } else {
            assert(trailer_line(ls[0], p) == first_trailer(ls, p));
        }
    }
}

} // verus!
