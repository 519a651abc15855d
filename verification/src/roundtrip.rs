//! What is written into a commit message is read out of it again.
use crate::import;
use crate::message;
use crate::message::{Merkle, PushFieldsView, PushTrailerView};
use crate::push;
use crate::push::{ProjectionAuthor, PublicationText, PushedCommit};
use crate::shadow;
use crate::text;
use vstd::prelude::*;

verus! {

/// A text without a line feed.
pub open spec fn one_line(s: Seq<char>) -> bool {
    !s.contains('\n')
}

/// A text without a line feed that is more than white space.
pub open spec fn worded(s: Seq<char>) -> bool {
    one_line(s) && text::trimmed(s).len() > 0
}

/// A text without a line feed that neither starts nor ends with white space.
pub open spec fn tidy(s: Seq<char>) -> bool {
    one_line(s) && text::trimmed(s) == s
}

/// A tidy text that is not empty.
pub open spec fn plain(s: Seq<char>) -> bool {
    &&& s.len() > 0
    &&& !s.contains('\n')
    &&& !text::whitespace(s[0])
    &&& !text::whitespace(s.last())
}

/// A plain text without a comma: the name of a change.
pub open spec fn plain_name(s: Seq<char>) -> bool {
    plain(s) && !s.contains(',')
}

/// Lines, each ended by a line feed.
pub open spec fn ended(ls: Seq<Seq<char>>) -> Seq<char>
    decreases ls.len(),
{
    if ls.len() == 0 {
        seq![]
    } else {
        ls[0] + "\n"@ + ended(ls.skip(1))
    }
}

/// A line of a block: it has no line feed and does not start with white
/// space.
pub open spec fn lined(l: Seq<char>) -> bool {
    l.len() > 0 && one_line(l) && !text::whitespace(l[0])
}

/// Whether every line is one of a block.
pub open spec fn all_lined(ls: Seq<Seq<char>>) -> bool {
    forall|i: int| 0 <= i < ls.len() ==> lined(#[trigger] ls[i])
}

proof fn lemma_ended_add(a: Seq<Seq<char>>, b: Seq<Seq<char>>)
    ensures
        ended(a + b) == ended(a) + ended(b),
    decreases a.len(),
{
    if a.len() == 0 {
        assert(a + b =~= b);
        assert(ended(a) + ended(b) =~= ended(b));
    } else {
        lemma_ended_add(a.skip(1), b);
        assert((a + b).skip(1) =~= a.skip(1) + b);
        assert((a + b)[0] == a[0]);
        assert(a[0] + "\n"@ + (ended(a.skip(1)) + ended(b)) =~= (a[0] + "\n"@ + ended(a.skip(1)))
            + ended(b));
    }
}

/// Behind a first line without a line feed come the other lines.
proof fn lemma_first_line(l: Seq<char>, rest: Seq<char>)
    requires
        !l.contains('\n'),
    ensures
        text::find_char(l + "\n"@ + rest, '\n') == Some(l.len() as int),
        text::lines_of(l + "\n"@ + rest) == seq![text::without_cr(l)] + text::lines_of(rest),
{
    reveal_strlit("\n");
    let s = l + "\n"@ + rest;
    assert(s[l.len() as int] == '\n');
    text::lemma_find_char(s, '\n');
    let f = text::find_char(s, '\n');
    assert(s.contains('\n'));
    assert(f is Some);
    let i = f->0;
    if i < l.len() {
        assert(l[i] == '\n');
        assert(l.contains('\n'));
    }
    assert(i == l.len());
    assert(s.take(i) =~= l);
    assert(s.skip(i + 1) =~= rest);
}

/// Behind a text that does not end with white space, only what follows is
/// trimmed.
proof fn lemma_end_behind(a: Seq<char>, b: Seq<char>)
    requires
        a.len() > 0,
        !text::whitespace(a.last()),
    ensures
        text::trimmed_end(a + b) == a + text::trimmed_end(b),
    decreases b.len(),
{
    if b.len() == 0 {
        assert(a + b =~= a);
    } else {
        assert((a + b).last() == b.last());
        if text::whitespace(b.last()) {
            assert((a + b).drop_last() =~= a + b.drop_last());
            lemma_end_behind(a, b.drop_last());
        }
    }
}

/// Where something is left of the end of a text, nothing before it goes.
proof fn lemma_end_of_words(a: Seq<char>, b: Seq<char>)
    requires
        text::trimmed_end(b).len() > 0,
    ensures
        text::trimmed_end(a + b) == a + text::trimmed_end(b),
    decreases b.len(),
{
    if b.len() > 0 {
        assert((a + b).last() == b.last());
        if text::whitespace(b.last()) {
            assert((a + b).drop_last() =~= a + b.drop_last());
            lemma_end_of_words(a, b.drop_last());
        }
    }
}

/// White space at the end of a text is not part of what is trimmed.
proof fn lemma_trimmed_of_end(s: Seq<char>)
    ensures
        text::trimmed(text::trimmed_end(s)) == text::trimmed(s),
    decreases s.len(),
{
    if s.len() > 0 && text::whitespace(s.last()) {
        lemma_trimmed_of_end(s.drop_last());
        lemma_trimmed_behind(s.drop_last(), s.last());
        assert(s.drop_last().push(s.last()) =~= s);
    }
}

/// A line of a block keeps its start when its end is trimmed.
proof fn lemma_end_of_line(l: Seq<char>)
    requires
        lined(l),
    ensures
        lined(text::trimmed_end(l)),
        !text::whitespace(text::trimmed_end(l).last()),
        text::trimmed_end(l).len() > 0,
        text::trimmed(l) == text::trimmed_end(l),
    decreases l.len(),
{
    if text::whitespace(l.last()) {
        let m = l.drop_last();
        assert(m.len() > 0) by {
            if m.len() == 0 {
                assert(l.last() == l[0]);
            }
        }
        assert(m[0] == l[0]);
        assert(one_line(m)) by {
            if m.contains('\n') {
                let i = choose|i: int| 0 <= i < m.len() && m[i] == '\n';
                assert(l[i] == '\n');
            }
        }
        lemma_end_of_line(m);
        assert(text::trimmed_start(m) == m);
    }
    assert(text::trimmed_start(l) == l);
}

/// The lines of a block are read out of it, without its last line feed.
proof fn lemma_block_lines(ls: Seq<Seq<char>>)
    requires
        ls.len() > 0,
        all_lined(ls),
        !text::whitespace(ls.last().last()),
    ensures
        ended(ls).len() > 0,
        ended(ls).last() == '\n',
        text::lines_of(ended(ls).drop_last()).len() == ls.len(),
        forall|i: int|
            0 <= i < ls.len() ==> #[trigger] text::lines_of(ended(ls).drop_last())[i]
                == text::without_cr(ls[i]),
    decreases ls.len(),
{
    reveal_strlit("\n");
    assert(lined(ls[0]));
    assert(text::whitespace('\r'));
    if ls.len() == 1 {
        assert(ended(ls.skip(1)) =~= seq![]);
        assert(ended(ls) =~= ls[0] + "\n"@);
        assert(ended(ls).drop_last() =~= ls[0]);
        text::lemma_find_char(ls[0], '\n');
        assert(text::lines_of(ls[0]) =~= seq![ls[0]]);
        assert(ls.last() == ls[0]);
        assert(text::without_cr(ls[0]) == ls[0]);
    } else {
        let rest = ls.skip(1);
        lemma_rest_lined(ls);
        assert(rest.last() == ls.last());
        lemma_block_lines(rest);
        let tail = ended(rest).drop_last();
        assert(ended(ls).drop_last() =~= ls[0] + "\n"@ + tail);
        lemma_first_line(ls[0], tail);
        let all = text::lines_of(ended(ls).drop_last());
        assert(all == seq![text::without_cr(ls[0])] + text::lines_of(tail));
        assert forall|i: int| 0 <= i < ls.len() implies #[trigger] all[i] == text::without_cr(
            ls[i],
        ) by {
            if i > 0 {
                assert(all[i] == text::lines_of(tail)[i - 1]);
                assert(rest[i - 1] == ls[i]);
            }
        }
    }
}

proof fn lemma_rest_lined(ls: Seq<Seq<char>>)
    requires
        ls.len() > 0,
        all_lined(ls),
    ensures
        lined(ls[0]),
        all_lined(ls.skip(1)),
{
    let rest = ls.skip(1);
    assert forall|i: int| 0 <= i < rest.len() implies lined(#[trigger] rest[i]) by {
        assert(lined(ls[i + 1]));
    }
}

/// A block starts with no line feed.
proof fn lemma_starts_lined(ls: Seq<Seq<char>>)
    requires
        ls.len() > 0,
        all_lined(ls),
    ensures
        ended(ls).len() > 0,
        ended(ls)[0] != '\n',
{
    assert(lined(ls[0]));
    assert(ended(ls)[0] == ls[0][0]);
    assert(text::whitespace('\n'));
}

/// No line of a block is empty.
proof fn lemma_no_gap(ls: Seq<Seq<char>>, k: int)
    requires
        all_lined(ls),
        0 <= k,
        k + 1 < ended(ls).len(),
    ensures
        !(ended(ls)[k] == '\n' && ended(ls)[k + 1] == '\n'),
    decreases ls.len(),
{
    let l = ls[0];
    let rest = ls.skip(1);
    lemma_rest_lined(ls);
    let nl = "\n"@;
    assert(nl.len() == 1) by {
        reveal_strlit("\n");
    }
    let e = l + nl + ended(rest);
    assert(ended(ls) == e);
    let n = l.len() as int;
    if k < n {
        assert(e[k] == l[k]);
        assert(l.contains(l[k]));
    } else if k == n {
        assert(ended(rest).len() > 0);
        assert(rest.len() > 0);
        lemma_starts_lined(rest);
        assert(e[k + 1] == ended(rest)[0]);
    } else {
        lemma_no_gap(rest, k - n - 1);
        assert(e[k] == ended(rest)[k - n - 1]);
        assert(e[k + 1] == ended(rest)[k - n]);
    }
}

/// A block without its last line feed ends with the end of its last line.
proof fn lemma_block_end(ls: Seq<Seq<char>>)
    requires
        ls.len() > 0,
    ensures
        ended(ls).len() > 0,
        ended(ls).drop_last() == ended(ls.drop_last()) + ls.last(),
        ended(ls) == ended(ls.drop_last()) + (ls.last() + "\n"@),
{
    reveal_strlit("\n");
    assert(ls =~= ls.drop_last() + seq![ls.last()]);
    lemma_ended_add(ls.drop_last(), seq![ls.last()]);
    lemma_one_line(ls.last());
    assert(ended(ls).drop_last() =~= ended(ls.drop_last()) + ls.last());
}

/// The block behind a body is its message's last paragraph.
proof fn lemma_last_paragraph(body: Seq<char>, ls: Seq<Seq<char>>)
    requires
        ls.len() > 0,
        all_lined(ls),
        !text::whitespace(ls.last().last()),
    ensures
        message::last_paragraph(body + "\n\n"@ + ended(ls)) == ended(ls).drop_last(),
{
    reveal_strlit("\n\n");
    reveal_strlit("\n");
    lemma_block_lines(ls);
    lemma_block_end(ls);
    let e = ended(ls);
    let m = body + "\n\n"@ + e;
    let b = e.drop_last();
    assert(lined(ls[ls.len() - 1]));
    assert(b.last() == ls.last().last());
    let t = body + "\n\n"@ + b;
    assert(m.last() == '\n');
    assert(m.drop_last() =~= t);
    assert(t.last() == b.last());
    assert(text::whitespace('\n'));
    reveal_with_fuel(text::trimmed_end, 2);
    assert(text::trimmed_end(m) == t);
    let p = "\n\n"@;
    let n = body.len() as int;
    assert(t.subrange(n, n + 2) =~= p);
    assert(text::occurs_at(t, p, n));
    text::lemma_rfind_upto(t, p, t.len() - 2);
    let r = text::rfind_text(t, p);
    assert(r is Some);
    let k = r->0;
    if k > n {
        assert(t.subrange(k, k + 2) == p);
        assert(t[k] == t.subrange(k, k + 2)[0]);
        assert(t[k + 1] == t.subrange(k, k + 2)[1]);
        if k == n + 1 {
            assert(t[k + 1] == b[0]);
            assert(b[0] == e[0]);
            assert(lined(ls[0]));
            assert(e[0] == ls[0][0]);
        } else {
            assert(t[k] == b[k - n - 2]);
            assert(t[k + 1] == b[k - n - 1]);
            lemma_no_gap(ls, k - n - 2);
            assert(b[k - n - 2] == e[k - n - 2]);
            assert(b[k - n - 1] == e[k - n - 1]);
        }
        assert(false);
    }
    assert(k == n);
    assert(t.skip(n + 2) =~= b);
}

/// What lines say depends on their trimmed texts alone.
proof fn lemma_same_fields(a: Seq<Seq<char>>, b: Seq<Seq<char>>)
    requires
        a.len() == b.len(),
        forall|i: int|
            0 <= i < a.len() ==> text::trimmed(#[trigger] a[i]) == text::trimmed(b[i]),
    ensures
        message::push_fields(a) == message::push_fields(b),
    decreases a.len(),
{
    if a.len() > 0 {
        let n = a.len() - 1;
        let x = a.drop_last();
        let y = b.drop_last();
        assert forall|i: int| 0 <= i < x.len() implies text::trimmed(#[trigger] x[i])
            == text::trimmed(y[i]) by {
            assert(text::trimmed(a[i]) == text::trimmed(b[i]));
        }
        lemma_same_fields(x, y);
        assert(text::trimmed(a[n]) == text::trimmed(b[n]));
        if x.len() > 0 {
            assert(text::trimmed(a[n - 1]) == text::trimmed(b[n - 1]));
            assert(x.last() == a[n - 1]);
            assert(y.last() == b[n - 1]);
        }
    }
}

/// What the block behind a body says is what its lines say.
proof fn lemma_fields_of_block(body: Seq<char>, ls: Seq<Seq<char>>)
    requires
        ls.len() > 0,
        all_lined(ls),
    ensures
        message::message_fields(body + "\n\n"@ + ended(ls)) == message::push_fields(ls),
{
    reveal_strlit("\n");
    let n = ls.len() - 1;
    let last = ls[n];
    let cut = text::trimmed_end(last);
    let xs = ls.drop_last().push(cut);
    assert(lined(last));
    lemma_end_of_line(last);
    assert(xs.drop_last() =~= ls.drop_last());
    assert forall|i: int| 0 <= i < xs.len() implies lined(#[trigger] xs[i]) by {
        if i < n {
            assert(xs[i] == ls[i]);
            assert(lined(ls[i]));
        }
    }
    lemma_block_end(ls);
    lemma_block_end(xs);
    let init = ended(ls.drop_last());
    let head = body + "\n\n"@ + init;
    assert(body + "\n\n"@ + ended(ls) =~= head + (last + "\n"@));
    assert(body + "\n\n"@ + ended(xs) =~= head + (cut + "\n"@));
    assert(text::whitespace('\n'));
    assert((last + "\n"@).drop_last() =~= last);
    assert((cut + "\n"@).drop_last() =~= cut);
    assert(text::trimmed_end(last + "\n"@) == cut);
    assert(text::trimmed_end(cut) == cut);
    assert(text::trimmed_end(cut + "\n"@) == cut);
    lemma_end_of_words(head, last + "\n"@);
    lemma_end_of_words(head, cut + "\n"@);
    assert(message::last_paragraph(body + "\n\n"@ + ended(ls)) == message::last_paragraph(
        body + "\n\n"@ + ended(xs),
    ));
    lemma_last_paragraph(body, xs);
    lemma_block_lines(xs);
    let read = text::lines_of(ended(xs).drop_last());
    assert forall|i: int| 0 <= i < read.len() implies text::trimmed(#[trigger] read[i])
        == text::trimmed(ls[i]) by {
        assert(read[i] == text::without_cr(xs[i]));
        lemma_trimmed_cr(xs[i]);
        if i == n {
            lemma_trimmed_of_end(last);
        }
    }
    lemma_same_fields(read, ls);
}

proof fn lemma_further_line(ls: Seq<Seq<char>>, x: Seq<char>)
    ensures
        message::push_fields(ls.push(x)) == (match message::push_fields(ls) {
            None => None,
            Some(f) => message::push_step(f, ls, x),
        }),
{
    assert(ls.push(x).drop_last() =~= ls);
}

proof fn lemma_differs(s: Seq<char>, p: Seq<char>, k: int)
    requires
        0 <= k < p.len(),
        k < s.len(),
        s[k] != p[k],
    ensures
        !text::has_prefix(s, p),
{
    if text::has_prefix(s, p) {
        assert(s.take(p.len() as int)[k] == s[k]);
    }
}

/// A heading and a text make a line.
proof fn lemma_headed(head: Seq<char>, v: Seq<char>)
    requires
        head.len() > 0,
        !text::whitespace(head[0]),
        one_line(head),
        one_line(v),
    ensures
        lined(head + v),
{
    let s = head + v;
    assert(s[0] == head[0]);
    if s.contains('\n') {
        let i = choose|i: int| 0 <= i < s.len() && s[i] == '\n';
        if i < head.len() {
            assert(head[i] == '\n');
        } else {
            assert(v[i - head.len()] == '\n');
        }
    }
}

/// A line of a key, a blank and a text has the key, and behind it the text.
proof fn lemma_keyed(key: Seq<char>, line: Seq<char>, v: Seq<char>)
    requires
        key.len() > 0,
        !text::whitespace(key[0]),
        !text::whitespace(key.last()),
        one_line(key),
        one_line(v),
        line == key + (" "@ + v),
    ensures
        lined(line),
        text::trimmed(line).len() >= key.len(),
        text::has_prefix(text::trimmed(line), key),
        text::trimmed(line).take(key.len() as int) == key,
        text::trimmed(text::trimmed(line).skip(key.len() as int)) == text::trimmed(v),
{
    reveal_strlit(" ");
    let b = " "@ + v;
    assert(one_line(b)) by {
        if b.contains('\n') {
            let i = choose|i: int| 0 <= i < b.len() && b[i] == '\n';
            if i > 0 {
                assert(v[i - 1] == '\n');
            }
        }
    }
    lemma_headed(key, b);
    lemma_end_of_line(line);
    lemma_end_behind(key, b);
    let t = text::trimmed(line);
    assert(t == key + text::trimmed_end(b));
    assert(t.take(key.len() as int) =~= key);
    assert(t.skip(key.len() as int) =~= text::trimmed_end(b));
    lemma_trimmed_of_end(b);
    lemma_behind_blank(v);
}

/// A line of a heading that ends with a blank, and of words, has the whole
/// heading.
proof fn lemma_worded_line(head: Seq<char>, v: Seq<char>)
    requires
        head.len() > 0,
        !text::whitespace(head[0]),
        one_line(head),
        worded(v),
    ensures
        lined(head + v),
        text::trimmed(head + v).len() >= head.len(),
        text::has_prefix(text::trimmed(head + v), head),
        text::trimmed(head + v).take(head.len() as int) == head,
{
    lemma_headed(head, v);
    lemma_end_of_line(head + v);
    lemma_trimmed_of_end(v);
    assert(text::trimmed_end(v).len() > 0) by {
        if text::trimmed_end(v).len() == 0 {
            assert(text::trimmed(text::trimmed_end(v)).len() == 0);
        }
    }
    lemma_end_of_words(head, v);
    let t = text::trimmed(head + v);
    assert(t.take(head.len() as int) =~= head);
}

/// A text behind a blank is trimmed like the text itself.
proof fn lemma_behind_blank(v: Seq<char>)
    ensures
        text::trimmed(" "@ + v) == text::trimmed(v),
{
    reveal_strlit(" ");
    let s = " "@ + v;
    assert(text::whitespace(' '));
    assert(s[0] == ' ');
    assert(s.drop_first() =~= v);
    assert(text::trimmed_start(s) == text::trimmed_start(v));
}

proof fn lemma_view_line(f: PushFieldsView, before: Seq<Seq<char>>, v: Seq<char>)
    requires
        tidy(v),
    ensures
        lined("Atomic-View: "@ + v),
        message::push_step(f, before, "Atomic-View: "@ + v) == Some(
            PushFieldsView { view: Some(v), ..f },
        ),
{
    reveal_strlit("Atomic-View: ");
    reveal_strlit("Atomic-View:");
    reveal_strlit(" ");
    let l = "Atomic-View: "@ + v;
    assert(l =~= "Atomic-View:"@ + (" "@ + v));
    lemma_keyed("Atomic-View:"@, l, v);
    let t = text::trimmed(l);
}

proof fn lemma_state_line(f: PushFieldsView, before: Seq<Seq<char>>, v: Seq<char>)
    requires
        tidy(v),
    ensures
        lined("Atomic-State: "@ + v),
        message::push_step(f, before, "Atomic-State: "@ + v) == Some(
            PushFieldsView { state: Some(v), ..f },
        ),
{
    reveal_strlit("Atomic-State: ");
    reveal_strlit("Atomic-State:");
    reveal_strlit(" ");
    reveal_strlit("Atomic-View:");
    let l = "Atomic-State: "@ + v;
    assert(l =~= "Atomic-State:"@ + (" "@ + v));
    lemma_keyed("Atomic-State:"@, l, v);
    let t = text::trimmed(l);
    assert(t[7] == t.take("Atomic-State:"@.len() as int)[7]);
    lemma_differs(t, "Atomic-View:"@, 7);
}

proof fn lemma_manifest_line(f: PushFieldsView, before: Seq<Seq<char>>, v: Seq<char>)
    requires
        one_line(v),
    ensures
        lined("Atomic-Manifest: "@ + v),
        message::push_step(f, before, "Atomic-Manifest: "@ + v) == Some(f),
{
    reveal_strlit("Atomic-Manifest: ");
    reveal_strlit("Atomic-Manifest:");
    reveal_strlit(" ");
    reveal_strlit("Atomic-View:");
    reveal_strlit("Atomic-State:");
    reveal_strlit("Atomic-Changes:");
    let l = "Atomic-Manifest: "@ + v;
    assert(l =~= "Atomic-Manifest:"@ + (" "@ + v));
    lemma_keyed("Atomic-Manifest:"@, l, v);
    let t = text::trimmed(l);
    assert(t[7] == t.take("Atomic-Manifest:"@.len() as int)[7]);
    lemma_differs(t, "Atomic-View:"@, 7);
    lemma_differs(t, "Atomic-State:"@, 7);
    lemma_differs(t, "Atomic-Changes:"@, 7);
}

proof fn lemma_policy_line(f: PushFieldsView, before: Seq<Seq<char>>, v: Seq<char>)
    requires
        one_line(v),
    ensures
        lined("Atomic-Policy: "@ + v),
        message::push_step(f, before, "Atomic-Policy: "@ + v) == Some(f),
{
    reveal_strlit("Atomic-Policy: ");
    reveal_strlit("Atomic-Policy:");
    reveal_strlit(" ");
    reveal_strlit("Atomic-View:");
    reveal_strlit("Atomic-State:");
    reveal_strlit("Atomic-Changes:");
    let l = "Atomic-Policy: "@ + v;
    assert(l =~= "Atomic-Policy:"@ + (" "@ + v));
    lemma_keyed("Atomic-Policy:"@, l, v);
    let t = text::trimmed(l);
    assert(t[7] == t.take("Atomic-Policy:"@.len() as int)[7]);
    lemma_differs(t, "Atomic-View:"@, 7);
    lemma_differs(t, "Atomic-State:"@, 7);
    lemma_differs(t, "Atomic-Changes:"@, 7);
}

proof fn lemma_algorithm_line(f: PushFieldsView, before: Seq<Seq<char>>, v: Seq<char>)
    requires
        one_line(v),
    ensures
        lined("Atomic-Algorithm: "@ + v),
        message::push_step(f, before, "Atomic-Algorithm: "@ + v) == Some(f),
{
    reveal_strlit("Atomic-Algorithm: ");
    reveal_strlit("Atomic-Algorithm:");
    reveal_strlit(" ");
    reveal_strlit("Atomic-View:");
    reveal_strlit("Atomic-State:");
    reveal_strlit("Atomic-Changes:");
    let l = "Atomic-Algorithm: "@ + v;
    assert(l =~= "Atomic-Algorithm:"@ + (" "@ + v));
    lemma_keyed("Atomic-Algorithm:"@, l, v);
    let t = text::trimmed(l);
    assert(t[7] == t.take("Atomic-Algorithm:"@.len() as int)[7]);
    lemma_differs(t, "Atomic-View:"@, 7);
    lemma_differs(t, "Atomic-State:"@, 7);
    lemma_differs(t, "Atomic-Changes:"@, 7);
}

proof fn lemma_tree_line(f: PushFieldsView, before: Seq<Seq<char>>, v: Seq<char>)
    requires
        one_line(v),
    ensures
        lined("Atomic-Tree: "@ + v),
        message::push_step(f, before, "Atomic-Tree: "@ + v) == Some(f),
{
    reveal_strlit("Atomic-Tree: ");
    reveal_strlit("Atomic-Tree:");
    reveal_strlit(" ");
    reveal_strlit("Atomic-View:");
    reveal_strlit("Atomic-State:");
    reveal_strlit("Atomic-Changes:");
    let l = "Atomic-Tree: "@ + v;
    assert(l =~= "Atomic-Tree:"@ + (" "@ + v));
    lemma_keyed("Atomic-Tree:"@, l, v);
    let t = text::trimmed(l);
    assert(t[7] == t.take("Atomic-Tree:"@.len() as int)[7]);
    lemma_differs(t, "Atomic-View:"@, 7);
    lemma_differs(t, "Atomic-State:"@, 7);
    lemma_differs(t, "Atomic-Changes:"@, 7);
}

proof fn lemma_set_line(f: PushFieldsView, before: Seq<Seq<char>>, v: Seq<char>)
    requires
        worded(v),
    ensures
        lined("atomic-set "@ + v),
        text::has_prefix(text::trimmed("atomic-set "@ + v), "atomic-set "@),
        message::push_step(f, before, "atomic-set "@ + v) == Some(f),
{
    reveal_strlit("atomic-set ");
    reveal_strlit("Atomic-View:");
    reveal_strlit("Atomic-State:");
    reveal_strlit("Atomic-Changes:");
    lemma_worded_line("atomic-set "@, v);
    let t = text::trimmed("atomic-set "@ + v);
    assert(t[0] == t.take("atomic-set "@.len() as int)[0]);
    lemma_differs(t, "Atomic-View:"@, 0);
    lemma_differs(t, "Atomic-State:"@, 0);
    lemma_differs(t, "Atomic-Changes:"@, 0);
}

proof fn lemma_lower_state_line(f: PushFieldsView, before: Seq<Seq<char>>, v: Seq<char>)
    requires
        worded(v),
    ensures
        lined("atomic-state "@ + v),
        text::has_prefix(text::trimmed("atomic-state "@ + v), "atomic-state "@),
        message::push_step(f, before, "atomic-state "@ + v) == Some(f),
{
    reveal_strlit("atomic-state ");
    reveal_strlit("Atomic-View:");
    reveal_strlit("Atomic-State:");
    reveal_strlit("Atomic-Changes:");
    lemma_worded_line("atomic-state "@, v);
    let t = text::trimmed("atomic-state "@ + v);
    assert(t[0] == t.take("atomic-state "@.len() as int)[0]);
    lemma_differs(t, "Atomic-View:"@, 0);
    lemma_differs(t, "Atomic-State:"@, 0);
    lemma_differs(t, "Atomic-Changes:"@, 0);
}

proof fn lemma_author_line(f: PushFieldsView, before: Seq<Seq<char>>, v: Seq<char>)
    requires
        worded(v),
    ensures
        lined("atomic-author "@ + v),
        text::has_prefix(text::trimmed("atomic-author "@ + v), "atomic-author "@),
        message::push_step(f, before, "atomic-author "@ + v) == Some(f),
{
    reveal_strlit("atomic-author ");
    reveal_strlit("Atomic-View:");
    reveal_strlit("Atomic-State:");
    reveal_strlit("Atomic-Changes:");
    lemma_worded_line("atomic-author "@, v);
    let t = text::trimmed("atomic-author "@ + v);
    assert(t[0] == t.take("atomic-author "@.len() as int)[0]);
    lemma_differs(t, "Atomic-View:"@, 0);
    lemma_differs(t, "Atomic-State:"@, 0);
    lemma_differs(t, "Atomic-Changes:"@, 0);
}

proof fn lemma_agent_line(f: PushFieldsView, before: Seq<Seq<char>>, v: Seq<char>)
    requires
        worded(v),
    ensures
        lined("atomic-agent "@ + v),
        text::has_prefix(text::trimmed("atomic-agent "@ + v), "atomic-agent "@),
        message::push_step(f, before, "atomic-agent "@ + v) == Some(f),
{
    reveal_strlit("atomic-agent ");
    reveal_strlit("Atomic-View:");
    reveal_strlit("Atomic-State:");
    reveal_strlit("Atomic-Changes:");
    lemma_worded_line("atomic-agent "@, v);
    let t = text::trimmed("atomic-agent "@ + v);
    assert(t[0] == t.take("atomic-agent "@.len() as int)[0]);
    lemma_differs(t, "Atomic-View:"@, 0);
    lemma_differs(t, "Atomic-State:"@, 0);
    lemma_differs(t, "Atomic-Changes:"@, 0);
}

proof fn lemma_coauthor_line(f: PushFieldsView, before: Seq<Seq<char>>, v: Seq<char>)
    requires
        one_line(v),
        before.len() > 0,
        text::has_prefix(text::trimmed(before.last()), "atomic-agent "@),
    ensures
        lined("Co-authored-by: "@ + v),
        message::push_step(f, before, "Co-authored-by: "@ + v) == Some(f),
{
    reveal_strlit("Co-authored-by: ");
    reveal_strlit("Co-authored-by:");
    reveal_strlit(" ");
    reveal_strlit("Atomic-View:");
    reveal_strlit("Atomic-State:");
    reveal_strlit("Atomic-Changes:");
    let l = "Co-authored-by: "@ + v;
    assert(l =~= "Co-authored-by:"@ + (" "@ + v));
    lemma_keyed("Co-authored-by:"@, l, v);
    let t = text::trimmed(l);
    assert(t[0] == t.take("Co-authored-by:"@.len() as int)[0]);
    lemma_differs(t, "Atomic-View:"@, 0);
    lemma_differs(t, "Atomic-State:"@, 0);
    lemma_differs(t, "Atomic-Changes:"@, 0);
}

/// A text behind a comma is the last piece.
proof fn lemma_split_last(a: Seq<char>, b: Seq<char>)
    requires
        !b.contains(','),
    ensures
        text::split_of(a + ","@ + b, ',') == text::split_of(a, ',').push(b),
    decreases a.len(),
{
    reveal_strlit(",");
    let s = a + ","@ + b;
    text::lemma_find_char(s, ',');
    text::lemma_find_char(a, ',');
    text::lemma_find_char(b, ',');
    assert(s[a.len() as int] == ',');
    assert(s.contains(','));
    let i = text::find_char(s, ',')->0;
    match text::find_char(a, ',') {
        Some(j) => {
            assert(s[j] == a[j]);
            if i < j {
                assert(a[i] == s[i]);
            }
            assert(i == j);
            assert(s.take(i) =~= a.take(i));
            assert(s.skip(i + 1) =~= a.skip(i + 1) + ","@ + b);
            lemma_split_last(a.skip(i + 1), b);
            assert(text::split_of(s, ',') =~= text::split_of(a, ',').push(b));
        },
        None => {
            if i < a.len() {
                assert(a[i] == s[i]);
                assert(a.contains(','));
            }
            assert(i == a.len());
            assert(s.take(i) =~= a);
            assert(s.skip(i + 1) =~= b);
            assert(text::split_of(b, ',') =~= seq![b]);
            assert(text::split_of(a, ',') =~= seq![a]);
            assert(text::split_of(s, ',') =~= text::split_of(a, ',').push(b));
        },
    }
}

/// The names of changes are read out of the list that holds them.
proof fn lemma_names(hs: Seq<Seq<char>>)
    requires
        hs.len() > 0,
        forall|i: int| 0 <= i < hs.len() ==> plain_name(#[trigger] hs[i]),
    ensures
        message::change_names(" "@ + text::joined(hs, ", "@)) == hs,
        plain(text::joined(hs, ", "@)),
    decreases hs.len(),
{
    reveal_strlit(" ");
    reveal_strlit(",");
    reveal_strlit(", ");
    let last = hs.last();
    assert(plain_name(last));
    let sep = ", "@;
    let b = " "@ + last;
    assert(!b.contains(',')) by {
        if b.contains(',') {
            let i = choose|i: int| 0 <= i < b.len() && b[i] == ',';
            if i > 0 {
                assert(last[i - 1] == ',');
            }
        }
    }
    lemma_behind_blank(last);
    assert(text::trimmed(last) == last);
    if hs.len() == 1 {
        assert(text::joined(hs, sep) == last);
        text::lemma_find_char(b, ',');
        assert(text::split_of(b, ',') =~= seq![b]);
        reveal_with_fuel(message::trimmed_pieces, 2);
        assert(seq![b].drop_last() =~= seq![]);
        assert(message::change_names(b) =~= hs);
    } else {
        let head = hs.drop_last();
        assert forall|i: int| 0 <= i < head.len() implies plain_name(#[trigger] head[i]) by {
            assert(plain_name(hs[i]));
        }
        lemma_names(head);
        let j = text::joined(head, sep);
        let a = " "@ + j;
        assert(text::joined(hs, sep) == j + sep + last);
        assert(" "@ + text::joined(hs, sep) =~= a + ","@ + b);
        lemma_split_last(a, b);
        let ps = text::split_of(a, ',').push(b);
        assert(ps.drop_last() =~= text::split_of(a, ','));
        assert(message::trimmed_pieces(ps) == message::trimmed_pieces(ps.drop_last()).push(last));
        assert(message::change_names(" "@ + text::joined(hs, sep)) =~= hs);
        let full = j + sep + last;
        assert(full[0] == j[0]);
        assert(full.last() == last.last());
        if full.contains('\n') {
            let i = choose|i: int| 0 <= i < full.len() && full[i] == '\n';
            if i < j.len() {
                assert(j[i] == '\n');
            } else if i >= j.len() + 2 {
                assert(last[i - j.len() - 2] == '\n');
            }
        }
    }
}

proof fn lemma_changes_line(f: PushFieldsView, before: Seq<Seq<char>>, hs: Seq<Seq<char>>)
    requires
        hs.len() > 0,
        forall|i: int| 0 <= i < hs.len() ==> plain_name(#[trigger] hs[i]),
    ensures
        lined("Atomic-Changes: "@ + text::joined(hs, ", "@)),
        message::push_step(f, before, "Atomic-Changes: "@ + text::joined(hs, ", "@)) == Some(
            PushFieldsView { changes: f.changes + hs, ..f },
        ),
{
    reveal_strlit("Atomic-Changes: ");
    reveal_strlit("Atomic-Changes:");
    reveal_strlit("Atomic-View:");
    reveal_strlit("Atomic-State:");
    reveal_strlit(" ");
    lemma_names(hs);
    let v = text::joined(hs, ", "@);
    let l = "Atomic-Changes: "@ + v;
    lemma_headed("Atomic-Changes: "@, v);
    assert(text::trimmed(l) == l);
    lemma_differs(l, "Atomic-View:"@, 7);
    lemma_differs(l, "Atomic-State:"@, 7);
    assert(l.take("Atomic-Changes:"@.len() as int) =~= "Atomic-Changes:"@);
    assert(l.skip("Atomic-Changes:"@.len() as int) =~= " "@ + v);
}

/// The lines of a push's claims.
pub open spec fn claims_lines(p: PublicationText) -> Seq<Seq<char>> {
    seq![
        "Atomic-View: "@ + p.view@,
        "Atomic-State: "@ + p.atomic_state@,
        "Atomic-Manifest: "@ + p.manifest@,
        "Atomic-Policy: "@ + p.policy@,
        "Atomic-Algorithm: "@ + push::algorithm_name(p.algorithm),
        "Atomic-Tree: "@ + p.tree@,
    ]
}

/// The lines of a push's identity headers.
pub open spec fn identity_lines(set_id: Seq<char>, state: Seq<char>, a: ProjectionAuthor) -> Seq<
    Seq<char>,
> {
    let own = seq!["atomic-set "@ + set_id, "atomic-state "@ + state, "atomic-author "@ + a.did@];
    match a.agent_did {
        Some(agent) => own + seq![
            "atomic-agent "@ + agent@,
            "Co-authored-by: "@ + (a.name@ + " <"@ + agent@ + ">"@),
        ],
        None => own,
    }
}

/// The line of a push's changes.
pub open spec fn changes_lines(hs: Seq<Seq<char>>) -> Seq<Seq<char>> {
    if hs.len() == 0 {
        seq![]
    } else {
        seq!["Atomic-Changes: "@ + text::joined(hs, ", "@)]
    }
}

/// All lines behind the body of a push's message.
pub open spec fn push_lines(
    p: PublicationText,
    set_id: Seq<char>,
    a: ProjectionAuthor,
    hs: Seq<Seq<char>>,
) -> Seq<Seq<char>> {
    claims_lines(p) + identity_lines(set_id, p.atomic_state@, a) + changes_lines(hs)
}

proof fn lemma_one_line(l: Seq<char>)
    ensures
        ended(seq![l]) == l + "\n"@,
{
    assert(seq![l].skip(1) =~= seq![]);
    assert(l + "\n"@ + ended(seq![]) =~= l + "\n"@);
}

proof fn lemma_line_more(ls: Seq<Seq<char>>, head: Seq<char>, v: Seq<char>)
    ensures
        ended(ls.push(head + v)) == ended(ls) + head + v + "\n"@,
{
    assert(ls.push(head + v) =~= ls + seq![head + v]);
    lemma_ended_add(ls, seq![head + v]);
    lemma_one_line(head + v);
    assert(ended(ls) + (head + v + "\n"@) =~= ended(ls) + head + v + "\n"@);
}

proof fn lemma_claims_text(p: PublicationText)
    ensures
        push::claims_block(p) == ended(claims_lines(p)),
{
    let c = claims_lines(p);
    let none: Seq<Seq<char>> = seq![];
    let l1 = none.push(c[0]);
    let l2 = l1.push(c[1]);
    let l3 = l2.push(c[2]);
    let l4 = l3.push(c[3]);
    let l5 = l4.push(c[4]);
    lemma_line_more(none, "Atomic-View: "@, p.view@);
    assert(ended(none) + "Atomic-View: "@ =~= "Atomic-View: "@);
    lemma_line_more(l1, "Atomic-State: "@, p.atomic_state@);
    lemma_line_more(l2, "Atomic-Manifest: "@, p.manifest@);
    lemma_line_more(l3, "Atomic-Policy: "@, p.policy@);
    lemma_line_more(l4, "Atomic-Algorithm: "@, push::algorithm_name(p.algorithm));
    lemma_line_more(l5, "Atomic-Tree: "@, p.tree@);
    assert(l5.push(c[5]) =~= c);
}

proof fn lemma_identity_text(set_id: Seq<char>, state: Seq<char>, a: ProjectionAuthor)
    ensures
        push::identity_block(set_id, state, a) == ended(identity_lines(set_id, state, a)),
{
    reveal_strlit("\n");
    reveal_strlit(">\n");
    reveal_strlit(">");
    let own = seq!["atomic-set "@ + set_id, "atomic-state "@ + state, "atomic-author "@ + a.did@];
    reveal_with_fuel(ended, 4);
    assert(own.skip(1) =~= seq![own[1], own[2]]);
    assert(own.skip(1).skip(1) =~= seq![own[2]]);
    lemma_one_line(own[2]);
    match a.agent_did {
        Some(agent) => {
            let more = seq![
                "atomic-agent "@ + agent@,
                "Co-authored-by: "@ + (a.name@ + " <"@ + agent@ + ">"@),
            ];
            lemma_ended_add(own, more);
            assert(more.skip(1) =~= seq![more[1]]);
            lemma_one_line(more[1]);
            assert(push::identity_block(set_id, state, a) =~= ended(own) + ended(more));
        },
        None => {
            assert(push::identity_block(set_id, state, a) =~= ended(own));
        },
    }
}

proof fn lemma_push_text(
    body: Seq<char>,
    p: PublicationText,
    set_id: Seq<char>,
    a: ProjectionAuthor,
    hs: Seq<Seq<char>>,
)
    ensures
        push::push_message(body, p, set_id, a, hs) == body + "\n\n"@ + ended(
            push_lines(p, set_id, a, hs),
        ),
{
    lemma_claims_text(p);
    lemma_identity_text(set_id, p.atomic_state@, a);
    let c = claims_lines(p);
    let d = identity_lines(set_id, p.atomic_state@, a);
    let e = changes_lines(hs);
    lemma_ended_add(c + d, e);
    lemma_ended_add(c, d);
    if hs.len() > 0 {
        lemma_one_line("Atomic-Changes: "@ + text::joined(hs, ", "@));
    }
    assert(push::changes_block(hs) =~= ended(e));
    assert(push::push_message(body, p, set_id, a, hs) =~= body + "\n\n"@ + ended(c + d + e));
}

/// Whether what a push writes into its message can be read out of it: every
/// text stays on its line, the view and the state have no white space around
/// them, what an identity header names is not blank, and the names of changes
/// are plain.
pub open spec fn plain_push(
    p: PublicationText,
    set_id: Seq<char>,
    a: ProjectionAuthor,
    hs: Seq<Seq<char>>,
) -> bool {
    &&& tidy(p.view@)
    &&& plain(p.atomic_state@)
    &&& one_line(p.manifest@)
    &&& one_line(p.policy@)
    &&& one_line(p.tree@)
    &&& worded(set_id)
    &&& worded(a.did@)
    &&& a.agent_did matches Some(agent) ==> one_line(a.name@) && worded(agent@)
    &&& forall|i: int| 0 <= i < hs.len() ==> plain_name(#[trigger] hs[i])
}

proof fn lemma_coauthor_line_text(name: Seq<char>, agent: Seq<char>)
    requires
        one_line(name),
        one_line(agent),
    ensures
        one_line(name + " <"@ + agent + ">"@),
{
    reveal_strlit(" <");
    reveal_strlit(">");
    let s = name + " <"@ + agent + ">"@;
    if s.contains('\n') {
        let i = choose|i: int| 0 <= i < s.len() && s[i] == '\n';
        if i < name.len() {
            assert(name[i] == '\n');
        } else if name.len() + 2 <= i < name.len() + 2 + agent.len() {
            assert(agent[i - name.len() - 2] == '\n');
        }
    }
}

/// The fields that the lines of a push say.
#[verifier::rlimit(30)]
proof fn lemma_push_fields(
    p: PublicationText,
    set_id: Seq<char>,
    a: ProjectionAuthor,
    hs: Seq<Seq<char>>,
)
    requires
        plain_push(p, set_id, a, hs),
    ensures
        all_lined(push_lines(p, set_id, a, hs)),
        message::push_fields(push_lines(p, set_id, a, hs)) == Some(
            PushFieldsView { view: Some(p.view@), state: Some(p.atomic_state@), changes: hs },
        ),
{
    let none = seq![];
    let f0 = PushFieldsView { view: None, state: None, changes: seq![] };
    let f1 = PushFieldsView { view: Some(p.view@), ..f0 };
    let f2 = PushFieldsView { state: Some(p.atomic_state@), ..f1 };
    let alg = push::algorithm_name(p.algorithm);
    assert(one_line(alg)) by {
        reveal_strlit("sha1");
        reveal_strlit("sha256");
    }
    assert(text::trimmed(p.atomic_state@) == p.atomic_state@);
    let c = claims_lines(p);
    let own = seq![
        "atomic-set "@ + set_id,
        "atomic-state "@ + p.atomic_state@,
        "atomic-author "@ + a.did@,
    ];
    let l1 = none.push(c[0]);
    let l2 = l1.push(c[1]);
    let l3 = l2.push(c[2]);
    let l4 = l3.push(c[3]);
    let l5 = l4.push(c[4]);
    let l6 = l5.push(c[5]);
    let l7 = l6.push(own[0]);
    let l8 = l7.push(own[1]);
    let l9 = l8.push(own[2]);
    lemma_further_line(none, c[0]);
    lemma_view_line(f0, none, p.view@);
    lemma_further_line(l1, c[1]);
    lemma_state_line(f1, l1, p.atomic_state@);
    lemma_further_line(l2, c[2]);
    lemma_manifest_line(f2, l2, p.manifest@);
    lemma_further_line(l3, c[3]);
    lemma_policy_line(f2, l3, p.policy@);
    lemma_further_line(l4, c[4]);
    lemma_algorithm_line(f2, l4, alg);
    lemma_further_line(l5, c[5]);
    lemma_tree_line(f2, l5, p.tree@);
    lemma_further_line(l6, own[0]);
    lemma_set_line(f2, l6, set_id);
    lemma_further_line(l7, own[1]);
    lemma_lower_state_line(f2, l7, p.atomic_state@);
    lemma_further_line(l8, own[2]);
    lemma_author_line(f2, l8, a.did@);
    assert(message::push_fields(l9) == Some(f2));
    assert(all_lined(l9));
    let l11 = match a.agent_did {
        Some(agent) => {
            let x = "atomic-agent "@ + agent@;
            let co = a.name@ + " <"@ + agent@ + ">"@;
            let y = "Co-authored-by: "@ + co;
            lemma_further_line(l9, x);
            lemma_agent_line(f2, l9, agent@);
            lemma_coauthor_line_text(a.name@, agent@);
            lemma_further_line(l9.push(x), y);
            lemma_coauthor_line(f2, l9.push(x), co);
            l9.push(x).push(y)
        },
        None => l9,
    };
    assert(message::push_fields(l11) == Some(f2));
    assert(all_lined(l11));
    assert(l11 =~= c + identity_lines(set_id, p.atomic_state@, a));
    if hs.len() > 0 {
        let z = "Atomic-Changes: "@ + text::joined(hs, ", "@);
        lemma_further_line(l11, z);
        lemma_changes_line(f2, l11, hs);
        assert(l11.push(z) =~= push_lines(p, set_id, a, hs));
        assert(Seq::<Seq<char>>::empty() + hs =~= hs);
    } else {
        assert(l11 =~= push_lines(p, set_id, a, hs));
        assert(hs =~= seq![]);
    }
}

/// An import recognises what a push made: whatever the body of the message,
/// its trailers give back the view, the state and the changes that were
/// pushed.
pub proof fn pushed_commits_are_recognised(
    body: Seq<char>,
    p: PublicationText,
    set_id: Seq<char>,
    a: ProjectionAuthor,
    hs: Seq<Seq<char>>,
    state: Merkle,
)
    requires
        plain_push(p, set_id, a, hs),
    ensures
        message::message_fields(push::push_message(body, p, set_id, a, hs)) == Some(
            PushFieldsView { view: Some(p.view@), state: Some(p.atomic_state@), changes: hs },
        ),
        message::push_trailer_of(push::push_message(body, p, set_id, a, hs), Some(state)) == Some(
            PushTrailerView { view: p.view@, state, changes: hs },
        ),
{
    lemma_push_fields(p, set_id, a, hs);
    lemma_push_text(body, p, set_id, a, hs);
    lemma_fields_of_block(body, push_lines(p, set_id, a, hs));
}

/// What was pushed from a view is not imported into it again: where the view
/// has been in the pushed state, an incremental import leaves the commit
/// out.
pub proof fn pushed_commits_are_not_imported_again(
    body: Seq<char>,
    p: PublicationText,
    set_id: Seq<char>,
    a: ProjectionAuthor,
    hs: Seq<Seq<char>>,
    state: Merkle,
    sha: Seq<char>,
    imported: Seq<Seq<char>>,
    known: Seq<Merkle>,
)
    requires
        plain_push(p, set_id, a, hs),
        known.contains(state),
    ensures
        import::skips_commit(
            sha,
            message::push_trailer_of(push::push_message(body, p, set_id, a, hs), Some(state)),
            imported,
            p.view@,
            known,
        ),
{
    pushed_commits_are_recognised(body, p, set_id, a, hs, state);
}

/// An import recognises the commit of a projection as well: its trailers give
/// back the view, the state and the recorded change.
pub proof fn projections_are_recognised(
    change: Option<Seq<char>>,
    view: Seq<char>,
    state_text: Seq<char>,
    state: Merkle,
)
    requires
        tidy(view),
        tidy(state_text),
        change matches Some(c) ==> plain_name(c),
    ensures
        message::push_trailer_of(
            shadow::projection_text(change, view, state_text),
            Some(state),
        ) == Some(
            PushTrailerView {
                view,
                state,
                changes: match change {
                    Some(c) => seq![c],
                    None => seq![],
                },
            },
        ),
{
    let none = seq![];
    let f0 = PushFieldsView { view: None, state: None, changes: seq![] };
    let f1 = PushFieldsView { view: Some(view), ..f0 };
    let f2 = PushFieldsView { state: Some(state_text), ..f1 };
    let x = "Atomic-View: "@ + view;
    let y = "Atomic-State: "@ + state_text;
    let l1 = none.push(x);
    let l2 = l1.push(y);
    lemma_further_line(none, x);
    lemma_view_line(f0, none, view);
    lemma_further_line(l1, y);
    lemma_state_line(f1, l1, state_text);
    assert(l1.skip(1) =~= seq![]);
    assert(l2.skip(1) =~= seq![y]);
    lemma_one_line(y);
    assert(ended(l2) == x + "\n"@ + (y + "\n"@));
    reveal_strlit("\n\n");
    reveal_strlit("\n");
    reveal_strlit("Atomic-View: ");
    reveal_strlit("Atomic-State: ");
    reveal_strlit("\nAtomic-State: ");
    match change {
        Some(c) => {
            let hs = seq![c];
            let z = "Atomic-Changes: "@ + c;
            assert(text::joined(hs, ", "@) == c);
            lemma_further_line(l2, z);
            lemma_changes_line(f2, l2, hs);
            assert(seq![] + hs =~= hs);
            let l3 = l2.push(z);
            assert(l3 =~= l2 + seq![z]);
            lemma_ended_add(l2, seq![z]);
            lemma_one_line(z);
            let body = "Atomic record projection"@;
            lemma_fields_of_block(body, l3);
            reveal_strlit("Atomic record projection");
            reveal_strlit("Atomic record projection\n\nAtomic-View: ");
            reveal_strlit("\nAtomic-Changes: ");
            reveal_strlit("Atomic-Changes: ");
            assert(shadow::projection_text(change, view, state_text) =~= body + "\n\n"@ + ended(
                l3,
            ));
        },
        None => {
            let body = "Atomic shadow switch projection"@;
            lemma_fields_of_block(body, l2);
            reveal_strlit("Atomic shadow switch projection");
            reveal_strlit("Atomic shadow switch projection\n\nAtomic-View: ");
            assert(shadow::projection_text(change, view, state_text) =~= body + "\n\n"@ + ended(
                l2,
            ));
        },
    }
}

/// A carriage return at the end of a line changes nothing of the line's
/// text.
proof fn lemma_trimmed_cr(l: Seq<char>)
    ensures
        text::trimmed(text::without_cr(l)) == text::trimmed(l),
{
    if l.len() > 0 && l.last() == '\r' {
        lemma_trimmed_behind(l.drop_last(), '\r');
        assert(l.drop_last().push('\r') =~= l);
    }
}

proof fn lemma_trimmed_behind(s: Seq<char>, c: char)
    requires
        text::whitespace(c),
    ensures
        text::trimmed(s.push(c)) == text::trimmed(s),
    decreases s.len(),
{
    if s.len() == 0 {
        assert(s.push(c).drop_first() =~= s);
        assert(text::trimmed_start(s.push(c)) == text::trimmed_start(s.push(c).drop_first()));
    } else if text::whitespace(s[0]) {
        assert(s.push(c).drop_first() =~= s.drop_first().push(c));
        lemma_trimmed_behind(s.drop_first(), c);
    } else {
        assert(text::trimmed_start(s.push(c)) == s.push(c));
        assert(s.push(c).drop_last() =~= s);
        assert(text::trimmed_end(s.push(c)) == text::trimmed_end(s));
    }
}

/// The first trailer of a text in two parts: that of the first part, or else
/// that of the second.
proof fn lemma_trailer_in_parts(a: Seq<char>, b: Seq<char>, p: Seq<char>)
    requires
        p.len() > 0,
    ensures
        message::first_trailer(text::lines_of(a + "\n"@ + b), p) == (match message::first_trailer(
            text::lines_of(a),
            p,
        ) {
            Some(v) => Some(v),
            None => message::first_trailer(text::lines_of(b), p),
        }),
    decreases a.len(),
{
    reveal_strlit("\n");
    text::lemma_find_char(a, '\n');
    match text::find_char(a, '\n') {
        Some(i) => {
            let l = a.take(i);
            let r = a.skip(i + 1);
            assert(a + "\n"@ + b =~= l + "\n"@ + (r + "\n"@ + b));
            assert(a =~= l + "\n"@ + r);
            assert(!l.contains('\n'));
            lemma_first_line(l, r + "\n"@ + b);
            lemma_first_line(l, r);
            let x = text::without_cr(l);
            let m1 = text::lines_of(r + "\n"@ + b);
            let m2 = text::lines_of(r);
            assert((seq![x] + m1).drop_first() =~= m1);
            assert((seq![x] + m2).drop_first() =~= m2);
            assert((seq![x] + m1)[0] == x);
            assert((seq![x] + m2)[0] == x);
            assert(text::lines_of(a) == seq![x] + m2);
            assert(text::lines_of(a + "\n"@ + b) == seq![x] + m1);
            lemma_trailer_in_parts(r, b, p);
        },
        None => {
            lemma_first_line(a, b);
            lemma_trimmed_cr(a);
            let x = text::without_cr(a);
            let m = text::lines_of(b);
            assert((seq![x] + m).drop_first() =~= m);
            assert((seq![x] + m)[0] == x);
            assert(text::lines_of(a + "\n"@ + b) == seq![x] + m);
            assert(message::trailer_line(x, p) == message::trailer_line(a, p));
            assert(message::first_trailer(seq![x] + m, p) == (match message::trailer_line(a, p) {
                Some(v) => Some(v),
                None => message::first_trailer(m, p),
            }));
            if a.len() == 0 {
                assert(text::trimmed(a) =~= a);
                assert(message::trailer_line(a, p) is None);
            } else {
                assert(text::lines_of(a) =~= seq![a]);
                let one = seq![a];
                assert(one.drop_first() =~= seq![]);
                assert(message::first_trailer(one.drop_first(), p) is None);
                assert(one[0] == a);
                assert(message::first_trailer(one, p) == message::trailer_line(a, p));
            }
        },
    }
}

/// The first trailer of a single line is that of the line.
proof fn lemma_trailer_of_line(l: Seq<char>, p: Seq<char>)
    requires
        lined(l),
    ensures
        message::first_trailer(text::lines_of(l), p) == message::trailer_line(l, p),
{
    text::lemma_find_char(l, '\n');
    assert(text::lines_of(l) =~= seq![l]);
    let one = seq![l];
    assert(one.drop_first() =~= seq![]);
    assert(message::first_trailer(one.drop_first(), p) is None);
    assert(one[0] == l);
}

/// The next push finds where it starts from: unless the body of the message
/// names a view or a state itself, the commit's headers give back the view
/// and the state that were pushed.
pub proof fn the_next_push_finds_its_start(
    body: Seq<char>,
    p: PublicationText,
    set_id: Seq<char>,
    a: ProjectionAuthor,
    hs: Seq<Seq<char>>,
)
    requires
        plain(p.view@),
        plain(p.atomic_state@),
        message::trailer_of(body, "Atomic-View"@) is None,
        message::trailer_of(body, "Atomic-State"@) is None,
    ensures
        message::trailer_of(push::push_message(body, p, set_id, a, hs), "Atomic-View"@) == Some(
            p.view@,
        ),
        message::trailer_of(push::push_message(body, p, set_id, a, hs), "Atomic-State"@) == Some(
            p.atomic_state@,
        ),
{
    let ls = push_lines(p, set_id, a, hs);
    lemma_push_text(body, p, set_id, a, hs);
    let m = push::push_message(body, p, set_id, a, hs);
    reveal_strlit("\n\n");
    reveal_strlit("\n");
    reveal_strlit("Atomic-View");
    reveal_strlit("Atomic-State");
    reveal_strlit("Atomic-View: ");
    reveal_strlit("Atomic-State: ");
    reveal_strlit(":");
    reveal_strlit(" ");
    let none: Seq<char> = seq![];
    let pv = "Atomic-View"@ + ":"@;
    let ps = "Atomic-State"@ + ":"@;
    let view_line = "Atomic-View: "@ + p.view@;
    let state_line = "Atomic-State: "@ + p.atomic_state@;
    assert(ls[0] == view_line);
    assert(ls.skip(1)[0] == state_line);
    let rest = ended(ls.skip(1).skip(1));
    let behind = state_line + "\n"@ + rest;
    assert(ended(ls.skip(1)) == behind);
    assert(ended(ls) == view_line + "\n"@ + behind);
    assert(m =~= body + "\n"@ + (none + "\n"@ + (view_line + "\n"@ + behind)));
    assert(view_line =~= pv + (" "@ + p.view@));
    assert(state_line =~= ps + (" "@ + p.atomic_state@));
    assert(text::trimmed(p.view@) == p.view@);
    assert(text::trimmed(p.atomic_state@) == p.atomic_state@);
    lemma_keyed(pv, view_line, p.view@);
    lemma_keyed(ps, state_line, p.atomic_state@);
    assert(text::lines_of(none) =~= seq![]);
    lemma_trailer_in_parts(body, none + "\n"@ + (view_line + "\n"@ + behind), pv);
    lemma_trailer_in_parts(none, view_line + "\n"@ + behind, pv);
    lemma_trailer_in_parts(view_line, behind, pv);
    lemma_trailer_of_line(view_line, pv);
    lemma_trailer_in_parts(body, none + "\n"@ + (view_line + "\n"@ + behind), ps);
    lemma_trailer_in_parts(none, view_line + "\n"@ + behind, ps);
    lemma_trailer_in_parts(view_line, behind, ps);
    lemma_trailer_of_line(view_line, ps);
    let t = text::trimmed(view_line);
    assert(t[7] == t.take(pv.len() as int)[7]);
    lemma_differs(t, ps, 7);
    lemma_trailer_in_parts(state_line, rest, ps);
    lemma_trailer_of_line(state_line, ps);
}

/// A push starts from the last one: where the newest commit was pushed from
/// the view, the search for the last pushed state gives that commit's state.
pub proof fn a_push_starts_from_the_last_one(
    body: Seq<char>,
    p: PublicationText,
    set_id: Seq<char>,
    a: ProjectionAuthor,
    hs: Seq<Seq<char>>,
    commits: Seq<PushedCommit>,
    state: Merkle,
)
    requires
        plain(p.view@),
        plain(p.atomic_state@),
        message::trailer_of(body, "Atomic-View"@) is None,
        message::trailer_of(body, "Atomic-State"@) is None,
        commits.len() > 0,
        commits[0].message@ == push::push_message(body, p, set_id, a, hs),
        commits[0].decoded == Some(state),
    ensures
        push::last_pushed(commits, p.view@) == Some(state),
{
    the_next_push_finds_its_start(body, p, set_id, a, hs);
}

} // verus!
