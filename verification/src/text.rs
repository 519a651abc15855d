//! Text primitives over `char` sequences.
//!
//! Commit messages, trailers, ref names and paths are plain text. The
//! functions here cut such text into pieces; each one is stated over the
//! sequence of characters that a string holds.
use vstd::prelude::*;

verus! {

/// `String::push` appends one character to the end of the string.
pub assume_specification[ std::string::String::push ](s: &mut std::string::String, c: char)
    ensures
        final(s)@ == old(s)@.push(c),
;

/// The character sequences held by a sequence of strings.
pub open spec fn texts(v: Seq<String>) -> Seq<Seq<char>> {
    v.map_values(|s: String| s@)
}

/// The character sequence held by an optional string.
pub open spec fn opt_text(o: Option<String>) -> Option<Seq<char>> {
    match o {
        Some(s) => Some(s@),
        None => None,
    }
}

/// The character sequence behind an optional string slice.
pub open spec fn opt_str(o: Option<&str>) -> Option<Seq<char>> {
    match o {
        Some(s) => Some(s@),
        None => None,
    }
}

/// The characters of a string, in order.
pub fn chars_of(s: &str) -> (r: Vec<char>)
    ensures
        r@ == s@,
{
    let mut r: Vec<char> = Vec::new();
    for c in it: s.chars()
        invariant
            it.seq() == s@,
            r@ == s@.take(it.index() as int),
    {
        r.push(c);
        assert(r@ =~= s@.take(it.index() as int + 1));
    }
    assert(s@.take(s@.len() as int) =~= s@);
    r
}

/// The string holding the characters from `from` up to `to`.
pub fn string_of(cs: &Vec<char>, from: usize, to: usize) -> (r: String)
    requires
        from <= to <= cs@.len(),
    ensures
        r@ == cs@.subrange(from as int, to as int),
{
    let mut r: String = String::new();
    let mut i: usize = from;
    while i < to
        invariant
            from <= i <= to <= cs@.len(),
            r@ == cs@.subrange(from as int, i as int),
        decreases to - i,
    {
        r.push(cs[i]);
        assert(cs@.subrange(from as int, i as int + 1) =~= cs@.subrange(
            from as int,
            i as int,
        ).push(cs@[i as int]));
        i += 1;
    }
    r
}

/// Whether two strings hold the same characters.
pub fn same_text(a: &str, b: &str) -> (r: bool)
    ensures
        r == (a@ == b@),
{
    a.to_owned() == b.to_owned()
}

/// Tell whether two lists hold the same texts, in order.
pub fn same_texts(a: &Vec<String>, b: &Vec<String>) -> (r: bool)
    ensures
        r == (texts(a@) == texts(b@)),
{
    let ghost left = texts(a@);
    let ghost right = texts(b@);
    assert(left.len() == a@.len() && right.len() == b@.len());
    if a.len() != b.len() {
        return false;
    }
    let mut i: usize = 0;
    while i < a.len()
        invariant
            i <= a@.len() == b@.len(),
            left == texts(a@),
            right == texts(b@),
            forall|k: int| 0 <= k < i ==> #[trigger] left[k] == right[k],
        decreases a@.len() - i,
    {
        assert(left[i as int] == a@[i as int]@);
        assert(right[i as int] == b@[i as int]@);
        if !same_text(&a[i], &b[i]) {
            return false;
        }
        i += 1;
    }
    assert(left =~= right);
    true
}

/// Whether a list of strings holds `needle`.
pub fn contains_text(list: &Vec<String>, needle: &str) -> (r: bool)
    ensures
        r == texts(list@).contains(needle@),
{
    let wanted: String = needle.to_owned();
    let mut i: usize = 0;
    while i < list.len()
        invariant
            i <= list@.len(),
            wanted@ == needle@,
            forall|j: int| 0 <= j < i ==> (#[trigger] list@[j])@ != needle@,
        decreases list@.len() - i,
    {
        if list[i] == wanted {
            assert(texts(list@)[i as int] == needle@);
            return true;
        }
        i += 1;
    }
    assert(!texts(list@).contains(needle@)) by {
        if texts(list@).contains(needle@) {
            let j: int = choose|j: int| 0 <= j < texts(list@).len() && texts(list@)[j] == needle@;
            assert(list@[j]@ == needle@);
        }
    }
    false
}

/// A copy of a list of strings.
pub fn clone_texts(list: &Vec<String>) -> (r: Vec<String>)
    ensures
        texts(r@) == texts(list@),
        r@.len() == list@.len(),
{
    let mut r: Vec<String> = Vec::new();
    let mut i: usize = 0;
    while i < list.len()
        invariant
            i <= list@.len(),
            texts(r@) == texts(list@).take(i as int),
        decreases list@.len() - i,
    {
        let ghost before = texts(r@);
        r.push(list[i].clone());
        assert(texts(r@) =~= before.push(texts(list@)[i as int]));
        assert(texts(r@) =~= texts(list@).take(i as int + 1));
        i += 1;
    }
    assert(texts(list@).take(list@.len() as int) =~= texts(list@));
    r
}

/// Characters with the Unicode `White_Space` property.
pub open spec fn whitespace(c: char) -> bool {
    let n = c as u32;
    ||| 0x9 <= n <= 0xd
    ||| n == 0x20
    ||| n == 0x85
    ||| n == 0xa0
    ||| n == 0x1680
    ||| 0x2000 <= n <= 0x200a
    ||| n == 0x2028
    ||| n == 0x2029
    ||| n == 0x202f
    ||| n == 0x205f
    ||| n == 0x3000
}

/// Whether `c` is white space.
pub fn is_whitespace(c: char) -> (r: bool)
    ensures
        r == whitespace(c),
{
    let n: u32 = c as u32;
    (0x9 <= n && n <= 0xd) || n == 0x20 || n == 0x85 || n == 0xa0 || n == 0x1680 || (0x2000 <= n
        && n <= 0x200a) || n == 0x2028 || n == 0x2029 || n == 0x202f || n == 0x205f || n == 0x3000
}

/// `s` without its leading white space.
pub open spec fn trimmed_start(s: Seq<char>) -> Seq<char>
    decreases s.len(),
{
    if s.len() > 0 && whitespace(s[0]) {
        trimmed_start(s.drop_first())
    } else {
        s
    }
}

/// `s` without its trailing white space.
pub open spec fn trimmed_end(s: Seq<char>) -> Seq<char>
    decreases s.len(),
{
    if s.len() > 0 && whitespace(s.last()) {
        trimmed_end(s.drop_last())
    } else {
        s
    }
}

/// `s` without leading and trailing white space.
pub open spec fn trimmed(s: Seq<char>) -> Seq<char> {
    trimmed_end(trimmed_start(s))
}

/// First index past the leading white space of `cs[0..]`.
fn start_of_text(cs: &Vec<char>) -> (r: usize)
    ensures
        r <= cs@.len(),
        cs@.skip(r as int) == trimmed_start(cs@),
{
    let mut i: usize = 0;
    assert(cs@.skip(0) =~= cs@);
    while i < cs.len() && is_whitespace(cs[i])
        invariant
            i <= cs@.len(),
            trimmed_start(cs@.skip(i as int)) == trimmed_start(cs@),
        decreases cs@.len() - i,
    {
        assert(cs@.skip(i as int).drop_first() =~= cs@.skip(i as int + 1));
        i += 1;
    }
    i
}

/// One past the last character of `cs[from..]` that is not white space.
fn end_of_text(cs: &Vec<char>, from: usize) -> (r: usize)
    requires
        from <= cs@.len(),
    ensures
        from <= r <= cs@.len(),
        cs@.subrange(from as int, r as int) == trimmed_end(cs@.skip(from as int)),
{
    let mut i: usize = cs.len();
    assert(cs@.subrange(from as int, i as int) =~= cs@.skip(from as int));
    while i > from && is_whitespace(cs[i - 1])
        invariant
            from <= i <= cs@.len(),
            trimmed_end(cs@.subrange(from as int, i as int)) == trimmed_end(cs@.skip(from as int)),
        decreases i,
    {
        assert(cs@.subrange(from as int, i as int).drop_last() =~= cs@.subrange(
            from as int,
            i as int - 1,
        ));
        i -= 1;
    }
    i
}

/// `s` without leading and trailing white space.
pub fn trim(s: &str) -> (r: String)
    ensures
        r@ == trimmed(s@),
{
    let cs = chars_of(s);
    let a: usize = start_of_text(&cs);
    let b: usize = end_of_text(&cs, a);
    string_of(&cs, a, b)
}

/// `s` without trailing white space.
pub fn trim_end(s: &str) -> (r: String)
    ensures
        r@ == trimmed_end(s@),
{
    let cs = chars_of(s);
    let b: usize = end_of_text(&cs, 0);
    assert(cs@.skip(0) =~= cs@);
    string_of(&cs, 0, b)
}

/// Position of the first `c` in `s`.
pub open spec fn find_char(s: Seq<char>, c: char) -> Option<int>
    decreases s.len(),
{
    if s.len() == 0 {
        None
    } else if s[0] == c {
        Some(0int)
    } else {
        match find_char(s.drop_first(), c) {
            Some(i) => Some(i + 1),
            None => None,
        }
    }
}

/// What a found position says about the text around it.
pub proof fn lemma_find_char(s: Seq<char>, c: char)
    ensures
        find_char(s, c) matches Some(i) ==> 0 <= i < s.len() && s[i] == c && forall|j: int|
            0 <= j < i ==> s[j] != c,
        find_char(s, c) is None ==> !s.contains(c),
    decreases s.len(),
{
    if s.len() > 0 && s[0] != c {
        lemma_find_char(s.drop_first(), c);
        match find_char(s.drop_first(), c) {
            Some(i) => {
                assert forall|j: int| 0 <= j < i + 1 implies s[j] != c by {
                    if j > 0 {
                        assert(s.drop_first()[j - 1] == s[j]);
                    }
                }
            },
            None => {
                assert forall|j: int| 0 <= j < s.len() implies s[j] != c by {
                    if j > 0 {
                        assert(s.drop_first()[j - 1] == s[j]);
                    }
                }
            },
        }
    }
}

/// Position of the first `c` at or after `from`, else the length.
fn scan_char(cs: &Vec<char>, from: usize, c: char) -> (r: usize)
    requires
        from <= cs@.len(),
    ensures
        from <= r <= cs@.len(),
        match find_char(cs@.skip(from as int), c) {
            Some(i) => r == from + i && r < cs@.len(),
            None => r == cs@.len(),
        },
{
    let mut i: usize = from;
    while i < cs.len() && cs[i] != c
        invariant
            from <= i <= cs@.len(),
            match find_char(cs@.skip(i as int), c) {
                Some(k) => find_char(cs@.skip(from as int), c) == Some(k + i - from),
                None => find_char(cs@.skip(from as int), c) is None,
            },
        decreases cs@.len() - i,
    {
        assert(cs@.skip(i as int).drop_first() =~= cs@.skip(i as int + 1));
        i += 1;
    }
    proof {
        if i < cs@.len() {
            assert(cs@.skip(i as int)[0] == cs@[i as int]);
        }
    }
    i
}

/// A line without the carriage return that preceded its line feed.
pub open spec fn without_cr(s: Seq<char>) -> Seq<char> {
    if s.len() > 0 && s.last() == '\r' {
        s.drop_last()
    } else {
        s
    }
}

/// The lines of `s`: cut at every line feed, terminators removed, no empty
/// line after a final line feed.
pub open spec fn lines_of(s: Seq<char>) -> Seq<Seq<char>>
    decreases s.len(),
    via lines_of_decreases
{
    if s.len() == 0 {
        seq![]
    } else {
        match find_char(s, '\n') {
            Some(i) => seq![without_cr(s.take(i))] + lines_of(s.skip(i + 1)),
            None => seq![s],
        }
    }
}

#[via_fn]
proof fn lines_of_decreases(s: Seq<char>) {
    lemma_find_char(s, '\n');
}

/// The lines of `s`.
pub fn lines(s: &str) -> (r: Vec<String>)
    ensures
        texts(r@) == lines_of(s@),
{
    let cs = chars_of(s);
    let mut out: Vec<String> = Vec::new();
    let mut i: usize = 0;
    assert(cs@.skip(0) =~= cs@);
    assert(texts(out@) + lines_of(cs@) =~= lines_of(cs@));
    while i < cs.len()
        invariant
            i <= cs@.len(),
            texts(out@) + lines_of(cs@.skip(i as int)) == lines_of(s@),
        decreases cs@.len() - i,
    {
        let ghost rest = cs@.skip(i as int);
        let e: usize = scan_char(&cs, i, '\n');
        let ghost before = texts(out@);
        if e < cs.len() {
            let mut stop: usize = e;
            if stop > i && cs[stop - 1] == '\r' {
                stop -= 1;
            }
            let line = string_of(&cs, i, stop);
            assert(rest.take(e - i) =~= cs@.subrange(i as int, e as int));
            assert(line@ =~= without_cr(rest.take(e - i)));
            assert(rest.skip(e - i + 1) =~= cs@.skip(e as int + 1));
            out.push(line);
            assert(texts(out@) =~= before.push(without_cr(rest.take(e - i))));
            assert(before + lines_of(rest) =~= texts(out@) + lines_of(cs@.skip(e as int + 1)));
            i = e + 1;
        } else {
            let line = string_of(&cs, i, e);
            assert(line@ =~= rest);
            out.push(line);
            assert(texts(out@) =~= before.push(rest));
            i = e;
            assert(cs@.skip(i as int) =~= Seq::<char>::empty());
            assert(before + lines_of(rest) =~= texts(out@) + lines_of(cs@.skip(i as int)));
        }
    }
    assert(cs@.skip(i as int) =~= Seq::<char>::empty());
    assert(texts(out@) + lines_of(cs@.skip(i as int)) =~= texts(out@));
    out
}

/// The pieces of `s` between the separators `c`.
pub open spec fn split_of(s: Seq<char>, c: char) -> Seq<Seq<char>>
    decreases s.len(),
    via split_of_decreases
{
    match find_char(s, c) {
        Some(i) => seq![s.take(i)] + split_of(s.skip(i + 1), c),
        None => seq![s],
    }
}

/// Splitting gives at least one part.
pub proof fn lemma_split_nonempty(s: Seq<char>, c: char)
    ensures
        split_of(s, c).len() > 0,
{
}

#[via_fn]
proof fn split_of_decreases(s: Seq<char>, c: char) {
    lemma_find_char(s, c);
}

/// The pieces of `s` between the separators `c`.
pub fn split_on(s: &str, c: char) -> (r: Vec<String>)
    ensures
        texts(r@) == split_of(s@, c),
{
    let cs = chars_of(s);
    let mut out: Vec<String> = Vec::new();
    let mut i: usize = 0;
    assert(cs@.skip(0) =~= cs@);
    assert(texts(out@) + split_of(cs@, c) =~= split_of(cs@, c));
    loop
        invariant
            i <= cs@.len(),
            texts(out@) + split_of(cs@.skip(i as int), c) == split_of(s@, c),
        decreases cs@.len() - i,
    {
        let ghost rest = cs@.skip(i as int);
        let ghost before = texts(out@);
        let e: usize = scan_char(&cs, i, c);
        let piece = string_of(&cs, i, e);
        out.push(piece);
        if e < cs.len() {
            assert(rest.take(e - i) =~= cs@.subrange(i as int, e as int));
            assert(rest.skip(e - i + 1) =~= cs@.skip(e as int + 1));
            assert(texts(out@) =~= before.push(rest.take(e - i)));
            assert(before + split_of(rest, c) =~= texts(out@) + split_of(
                cs@.skip(e as int + 1),
                c,
            ));
            i = e + 1;
        } else {
            assert(piece@ =~= rest);
            assert(texts(out@) =~= before.push(rest));
            assert(texts(out@) =~= before + split_of(rest, c));
            return out;
        }
    }
}

/// Whether `p` starts `s`.
pub open spec fn has_prefix(s: Seq<char>, p: Seq<char>) -> bool {
    p.len() <= s.len() && s.take(p.len() as int) == p
}

/// Whether `p` ends `s`.
pub open spec fn has_suffix(s: Seq<char>, p: Seq<char>) -> bool {
    p.len() <= s.len() && s.skip(s.len() - p.len()) == p
}

/// Whether `p` stands in `s` at `i`.
pub open spec fn occurs_at(s: Seq<char>, p: Seq<char>, i: int) -> bool {
    0 <= i && i + p.len() <= s.len() && s.subrange(i, i + p.len()) == p
}

/// Whether the characters `ps` stand in `cs` at `i`.
fn match_at(cs: &Vec<char>, ps: &Vec<char>, i: usize) -> (r: bool)
    requires
        i <= cs@.len(),
    ensures
        r == occurs_at(cs@, ps@, i as int),
{
    if ps.len() > cs.len() - i {
        return false;
    }
    let mut k: usize = 0;
    while k < ps.len()
        invariant
            k <= ps@.len(),
            i + ps@.len() <= cs@.len(),
            cs@.len() == cs.len(),
            forall|j: int| 0 <= j < k ==> cs@[i + j] == ps@[j],
        decreases ps@.len() - k,
    {
        if cs[i + k] != ps[k] {
            assert(cs@.subrange(i as int, i + ps@.len())[k as int] != ps@[k as int]);
            return false;
        }
        k += 1;
    }
    assert(cs@.subrange(i as int, i + ps@.len()) =~= ps@);
    true
}

/// Whether `p` starts `s`.
pub fn starts_with(s: &str, p: &str) -> (r: bool)
    ensures
        r == has_prefix(s@, p@),
{
    let cs = chars_of(s);
    let ps = chars_of(p);
    let r = match_at(&cs, &ps, 0);
    assert(p@.len() <= s@.len() ==> s@.subrange(0, p@.len() as int) =~= s@.take(p@.len() as int));
    r
}

/// Whether `p` ends `s`.
pub fn ends_with(s: &str, p: &str) -> (r: bool)
    ensures
        r == has_suffix(s@, p@),
{
    let cs = chars_of(s);
    let ps = chars_of(p);
    if ps.len() > cs.len() {
        return false;
    }
    let at: usize = cs.len() - ps.len();
    let r = match_at(&cs, &ps, at);
    assert(s@.subrange(at as int, at + p@.len()) =~= s@.skip(s@.len() - p@.len()));
    r
}

/// `s` behind the prefix `p`, when `p` starts it.
pub fn strip_prefix(s: &str, p: &str) -> (r: Option<String>)
    ensures
        match r {
            Some(rest) => has_prefix(s@, p@) && rest@ == s@.skip(p@.len() as int),
            None => !has_prefix(s@, p@),
        },
{
    let cs = chars_of(s);
    let ps = chars_of(p);
    let hit = match_at(&cs, &ps, 0);
    assert(p@.len() <= s@.len() ==> s@.subrange(0, p@.len() as int) =~= s@.take(p@.len() as int));
    if hit {
        let rest = string_of(&cs, ps.len(), cs.len());
        assert(rest@ =~= s@.skip(p@.len() as int));
        Some(rest)
    } else {
        None
    }
}

/// First position at or after `i` where `p` stands in `s`.
pub open spec fn find_from(s: Seq<char>, p: Seq<char>, i: int) -> Option<int>
    decreases s.len() - i + 1,
{
    if i + p.len() > s.len() {
        None
    } else if occurs_at(s, p, i) {
        Some(i)
    } else {
        find_from(s, p, i + 1)
    }
}

/// Last position at or before `i` where `p` stands in `s`.
pub open spec fn rfind_upto(s: Seq<char>, p: Seq<char>, i: int) -> Option<int>
    decreases i + 1,
{
    if i < 0 {
        None
    } else if occurs_at(s, p, i) {
        Some(i)
    } else {
        rfind_upto(s, p, i - 1)
    }
}

/// First position where `p` stands in `s`.
pub open spec fn find_text(s: Seq<char>, p: Seq<char>) -> Option<int> {
    find_from(s, p, 0)
}

/// Last position where `p` stands in `s`.
pub open spec fn rfind_text(s: Seq<char>, p: Seq<char>) -> Option<int> {
    rfind_upto(s, p, s.len() - p.len())
}

/// A found position is an occurrence.
pub proof fn lemma_find_from(s: Seq<char>, p: Seq<char>, i: int)
    requires
        0 <= i,
    ensures
        find_from(s, p, i) matches Some(k) ==> i <= k && occurs_at(s, p, k),
        find_from(s, p, i) is None ==> forall|k: int| i <= k ==> !occurs_at(s, p, k),
    decreases s.len() - i + 1,
{
    if i + p.len() <= s.len() && !occurs_at(s, p, i) {
        lemma_find_from(s, p, i + 1);
    }
}

/// A found last position is an occurrence, and nothing occurs behind it.
pub proof fn lemma_rfind_upto(s: Seq<char>, p: Seq<char>, i: int)
    ensures
        rfind_upto(s, p, i) matches Some(k) ==> k <= i && occurs_at(s, p, k) && forall|j: int|
            k < j <= i ==> !occurs_at(s, p, j),
        rfind_upto(s, p, i) is None ==> forall|j: int| j <= i ==> !occurs_at(s, p, j),
    decreases i + 1,
{
    if i >= 0 && !occurs_at(s, p, i) {
        lemma_rfind_upto(s, p, i - 1);
    }
}

/// First position at or after `from` where `p` stands in `s`.
pub fn find_in(cs: &Vec<char>, p: &str, from: usize) -> (r: Option<usize>)
    requires
        from <= cs@.len(),
    ensures
        match r {
            Some(i) => find_from(cs@, p@, from as int) == Some(i as int) && i + p@.len()
                <= cs.len(),
            None => find_from(cs@, p@, from as int) is None,
        },
{
    let ps = chars_of(p);
    let mut i: usize = from;
    while ps.len() <= cs.len() - i
        invariant
            i <= cs@.len(),
            ps@ == p@,
            find_from(cs@, p@, from as int) == find_from(cs@, p@, i as int),
        decreases cs@.len() - i,
    {
        if match_at(cs, &ps, i) {
            return Some(i);
        }
        if i == cs.len() {
            assert(find_from(cs@, p@, i + 1) is None);
            return None;
        }
        i += 1;
    }
    None
}

/// Last position where `p` stands in `s`.
pub fn rfind_in(cs: &Vec<char>, p: &str) -> (r: Option<usize>)
    ensures
        match r {
            Some(i) => rfind_text(cs@, p@) == Some(i as int) && i + p@.len() <= cs.len(),
            None => rfind_text(cs@, p@) is None,
        },
{
    let ps = chars_of(p);
    if ps.len() > cs.len() {
        return None;
    }
    let mut i: usize = cs.len() - ps.len();
    loop
        invariant
            i + ps@.len() <= cs@.len(),
            ps@ == p@,
            rfind_text(cs@, p@) == rfind_upto(cs@, p@, i as int),
        decreases i,
    {
        if match_at(cs, &ps, i) {
            return Some(i);
        }
        if i == 0 {
            assert(rfind_upto(cs@, p@, -1) is None);
            return None;
        }
        i -= 1;
    }
}

/// Whether `p` stands anywhere in `s`.
pub open spec fn contains_sub(s: Seq<char>, p: Seq<char>) -> bool {
    exists|i: int| occurs_at(s, p, i)
}

/// Whether `p` stands anywhere in `s`.
pub fn has_sub(s: &str, p: &str) -> (r: bool)
    ensures
        r == contains_sub(s@, p@),
{
    let cs = chars_of(s);
    proof {
        lemma_find_from(s@, p@, 0);
    }
    match find_in(&cs, p, 0) {
        Some(i) => {
            assert(occurs_at(s@, p@, i as int));
            true
        },
        None => {
            assert(forall|i: int| occurs_at(s@, p@, i) ==> 0 <= i);
            false
        },
    }
}

/// `c` in lower case, when it is an ASCII capital.
pub open spec fn lower_char(c: char) -> char {
    if 'A' <= c && c <= 'Z' {
        ((c as u32) + 32) as char
    } else {
        c
    }
}

/// `s` with its ASCII capitals in lower case.
pub open spec fn lowered(s: Seq<char>) -> Seq<char> {
    s.map_values(|c: char| lower_char(c))
}

/// `c` in lower case, when it is an ASCII capital.
pub fn lower_ascii(c: char) -> (r: char)
    ensures
        r == lower_char(c),
{
    if 'A' <= c && c <= 'Z' {
        let n: u8 = c as u8;
        let m: u8 = n + 32;
        m as char
    } else {
        c
    }
}

/// `s` with its ASCII capitals in lower case.
pub fn to_lower(s: &str) -> (r: String)
    ensures
        r@ == lowered(s@),
{
    let cs = chars_of(s);
    let mut out: String = String::new();
    let mut i: usize = 0;
    while i < cs.len()
        invariant
            i <= cs@.len(),
            cs@ == s@,
            out@ == lowered(s@.take(i as int)),
        decreases cs@.len() - i,
    {
        out.push(lower_ascii(cs[i]));
        assert(out@ =~= lowered(s@.take(i as int + 1)));
        i += 1;
    }
    assert(s@.take(i as int) =~= s@);
    out
}

/// `s` with every `from` replaced by `to`.
pub open spec fn replaced(s: Seq<char>, from: char, to: char) -> Seq<char> {
    s.map_values(|c: char| if c == from { to } else { c })
}

/// `s` with every `from` replaced by `to`.
pub fn replace_char(s: &str, from: char, to: char) -> (r: String)
    ensures
        r@ == replaced(s@, from, to),
{
    let cs = chars_of(s);
    let mut out: String = String::new();
    let mut i: usize = 0;
    while i < cs.len()
        invariant
            i <= cs@.len(),
            cs@ == s@,
            out@ == replaced(s@.take(i as int), from, to),
        decreases cs@.len() - i,
    {
        let c: char = cs[i];
        out.push(if c == from { to } else { c });
        assert(out@ =~= replaced(s@.take(i as int + 1), from, to));
        i += 1;
    }
    assert(s@.take(i as int) =~= s@);
    out
}

/// Length of the run of white space (or of other text) that starts `s`.
pub open spec fn run_len(s: Seq<char>, white: bool) -> nat
    decreases s.len(),
{
    if s.len() > 0 && whitespace(s[0]) == white {
        1 + run_len(s.drop_first(), white)
    } else {
        0
    }
}

/// A run ends where the text does, or before a character of the other kind.
pub proof fn lemma_run_len(s: Seq<char>, white: bool)
    ensures
        run_len(s, white) <= s.len(),
        run_len(s, white) < s.len() ==> whitespace(s[run_len(s, white) as int]) != white,
        forall|i: int| 0 <= i < run_len(s, white) ==> whitespace(#[trigger] s[i]) == white,
    decreases s.len(),
{
    if s.len() > 0 && whitespace(s[0]) == white {
        lemma_run_len(s.drop_first(), white);
        let n = run_len(s.drop_first(), white);
        assert forall|i: int| 0 <= i < 1 + n implies whitespace(#[trigger] s[i]) == white by {
            if i > 0 {
                assert(s.drop_first()[i - 1] == s[i]);
            }
        }
    }
}

/// The words of `s`: its maximal runs of other than white space.
pub open spec fn words_of(s: Seq<char>) -> Seq<Seq<char>>
    decreases s.len(),
    via words_of_decreases
{
    let t = s.skip(run_len(s, true) as int);
    if t.len() == 0 {
        seq![]
    } else {
        seq![t.take(run_len(t, false) as int)] + words_of(t.skip(run_len(t, false) as int))
    }
}

#[via_fn]
proof fn words_of_decreases(s: Seq<char>) {
    lemma_run_len(s, true);
    let t = s.skip(run_len(s, true) as int);
    lemma_run_len(t, false);
    if t.len() > 0 {
        assert(t[0] == s[run_len(s, true) as int]);
        assert(run_len(t, false) > 0);
    }
}

fn scan_run(cs: &Vec<char>, from: usize, white: bool) -> (r: usize)
    requires
        from <= cs@.len(),
    ensures
        r == from + run_len(cs@.skip(from as int), white),
        from <= r <= cs@.len(),
{
    let mut i: usize = from;
    while i < cs.len() && is_whitespace(cs[i]) == white
        invariant
            from <= i <= cs@.len(),
            i - from + run_len(cs@.skip(i as int), white) == run_len(cs@.skip(from as int), white),
        decreases cs@.len() - i,
    {
        assert(cs@.skip(i as int).drop_first() =~= cs@.skip(i as int + 1));
        i += 1;
    }
    i
}

/// The words of `s`.
pub fn words(s: &str) -> (r: Vec<String>)
    ensures
        texts(r@) == words_of(s@),
{
    let cs = chars_of(s);
    let mut out: Vec<String> = Vec::new();
    let mut i: usize = 0;
    assert(cs@.skip(0) =~= cs@);
    assert(texts(out@) + words_of(cs@) =~= words_of(cs@));
    loop
        invariant
            i <= cs@.len(),
            texts(out@) + words_of(cs@.skip(i as int)) == words_of(s@),
        decreases cs@.len() - i,
    {
        let ghost rest = cs@.skip(i as int);
        let ghost before = texts(out@);
        proof {
            lemma_run_len(rest, true);
            lemma_run_len(rest.skip(run_len(rest, true) as int), false);
        }
        let a: usize = scan_run(&cs, i, true);
        assert(rest.skip(a - i) =~= cs@.skip(a as int));
        if a >= cs.len() {
            assert(words_of(rest) =~= Seq::<Seq<char>>::empty());
            assert(texts(out@) =~= before + words_of(rest));
            return out;
        }
        let b: usize = scan_run(&cs, a, false);
        let w = string_of(&cs, a, b);
        let ghost t = cs@.skip(a as int);
        assert(t.take(b - a) =~= cs@.subrange(a as int, b as int));
        assert(t.skip(b - a) =~= cs@.skip(b as int));
        out.push(w);
        assert(texts(out@) =~= before.push(t.take(b - a)));
        assert(before + words_of(rest) =~= texts(out@) + words_of(cs@.skip(b as int)));
        i = b;
    }
}

/// The pieces joined by a separator.
pub open spec fn joined(parts: Seq<Seq<char>>, sep: Seq<char>) -> Seq<char>
    decreases parts.len(),
{
    if parts.len() == 0 {
        seq![]
    } else if parts.len() == 1 {
        parts[0]
    } else {
        joined(parts.drop_last(), sep) + sep + parts.last()
    }
}

/// The pieces joined by a separator.
pub fn join(parts: &Vec<String>, sep: &str) -> (r: String)
    ensures
        r@ == joined(texts(parts@), sep@),
{
    let mut out: String = String::new();
    let mut i: usize = 0;
    while i < parts.len()
        invariant
            i <= parts@.len(),
            out@ == joined(texts(parts@).take(i as int), sep@),
        decreases parts@.len() - i,
    {
        let ghost t = texts(parts@);
        if i > 0 {
            out.append(sep);
        }
        out.append(&parts[i]);
        assert(t.take(i as int + 1).drop_last() =~= t.take(i as int));
        assert(t.take(i as int + 1).last() == parts@[i as int]@);
        assert(i == 0 ==> out@ =~= t.take(1)[0]);
        i += 1;
    }
    assert(texts(parts@).take(parts@.len() as int) =~= texts(parts@));
    out
}

/// The decimal digits of `n`.
pub open spec fn decimal(n: nat) -> Seq<char>
    decreases n,
{
    if n < 10 {
        seq![(n + 48) as char]
    } else {
        decimal(n / 10).push((n % 10 + 48) as char)
    }
}

fn digit(d: u64) -> (r: char)
    requires
        d < 10,
    ensures
        r == (d + 48) as char,
{
    let n: u8 = d as u8 + 48;
    n as char
}

/// The decimal digits of `n`.
pub fn to_decimal(n: u64) -> (r: String)
    ensures
        r@ == decimal(n as nat),
    decreases n,
{
    if n < 10 {
        let mut out: String = String::new();
        out.push(digit(n));
        assert(out@ =~= decimal(n as nat));
        out
    } else {
        let mut out = to_decimal(n / 10);
        out.push(digit(n % 10));
        out
    }
}

/// The octal digits of `n`.
pub open spec fn octal(n: nat) -> Seq<char>
    decreases n,
{
    if n < 8 {
        seq![(n + 48) as char]
    } else {
        octal(n / 8).push((n % 8 + 48) as char)
    }
}

/// The octal digits of `n`.
pub fn to_octal(n: u32) -> (r: String)
    ensures
        r@ == octal(n as nat),
    decreases n,
{
    if n < 8 {
        let mut out: String = String::new();
        out.push(digit(n as u64));
        assert(out@ =~= octal(n as nat));
        out
    } else {
        let mut out = to_octal(n / 8);
        out.push(digit((n % 8) as u64));
        out
    }
}

/// A list in reverse.
pub fn reversed<T>(v: Vec<T>) -> (r: Vec<T>)
    ensures
        r@ == v@.reverse(),
{
    let ghost all = v@;
    let mut rest = v;
    let mut out: Vec<T> = Vec::new();
    assert(all =~= rest@ + out@.reverse());
    while rest.len() > 0
        invariant
            all == rest@ + out@.reverse(),
        decreases rest@.len(),
    {
        let ghost r0 = rest@;
        let ghost o0 = out@;
        if let Some(x) = rest.pop() {
            out.push(x);
            assert(rest@ + out@.reverse() =~= r0 + o0.reverse());
        }
    }
    assert(all =~= out@.reverse());
    assert(out@ =~= all.reverse());
    out
}

/// Whether a text is white space only.
pub open spec fn blank(s: Seq<char>) -> bool {
    forall|i: int| 0 <= i < s.len() ==> whitespace(#[trigger] s[i])
}

proof fn lemma_trim_start(s: Seq<char>) -> (a: Seq<char>)
    ensures
        blank(a),
        s == a + trimmed_start(s),
        trimmed_start(s).len() > 0 ==> !whitespace(trimmed_start(s)[0]),
    decreases s.len(),
{
    if s.len() > 0 && whitespace(s[0]) {
        let a = lemma_trim_start(s.drop_first());
        let r = seq![s[0]] + a;
        assert(s =~= seq![s[0]] + s.drop_first());
        assert(seq![s[0]] + (a + trimmed_start(s)) =~= r + trimmed_start(s));
        r
    } else {
        assert(s =~= Seq::<char>::empty() + s);
        Seq::empty()
    }
}

proof fn lemma_trim_end(s: Seq<char>) -> (b: Seq<char>)
    ensures
        blank(b),
        s == trimmed_end(s) + b,
        trimmed_end(s).len() > 0 ==> !whitespace(trimmed_end(s).last()),
        trimmed_end(s).len() > 0 ==> trimmed_end(s)[0] == s[0],
    decreases s.len(),
{
    if s.len() > 0 && whitespace(s.last()) {
        let b = lemma_trim_end(s.drop_last());
        let r = b.push(s.last());
        assert(s =~= s.drop_last().push(s.last()));
        assert((trimmed_end(s) + b).push(s.last()) =~= trimmed_end(s) + r);
        r
    } else {
        assert(s =~= s + Seq::<char>::empty());
        Seq::empty()
    }
}

/// Trimming takes white space off both ends and nothing else: what is left
/// neither starts nor ends with any, and only white space went.
pub proof fn trimming_takes_white_space_only(s: Seq<char>) -> (ends: (Seq<char>, Seq<char>))
    ensures
        s == ends.0 + trimmed(s) + ends.1,
        blank(ends.0),
        blank(ends.1),
        trimmed(s).len() > 0 ==> !whitespace(trimmed(s)[0]) && !whitespace(trimmed(s).last()),
{
    let a = lemma_trim_start(s);
    let t = trimmed_start(s);
    let b = lemma_trim_end(t);
    assert(s =~= a + trimmed(s) + b);
    (a, b)
}

/// The first piece stands first, the separator behind it.
pub proof fn lemma_joined_front(first: Seq<char>, rest: Seq<Seq<char>>, sep: Seq<char>)
    requires
        rest.len() > 0,
    ensures
        joined(seq![first] + rest, sep) == first + sep + joined(rest, sep),
    decreases rest.len(),
{
    let all = seq![first] + rest;
    if rest.len() == 1 {
        assert(all.drop_last() =~= seq![first]);
        assert(joined(all.drop_last(), sep) == first);
    } else {
        assert(all.drop_last() =~= seq![first] + rest.drop_last());
        lemma_joined_front(first, rest.drop_last(), sep);
        assert(joined(all, sep) =~= first + sep + joined(rest, sep));
    }
}

/// Cutting a text at a separator loses nothing: the pieces, joined by the
/// separator, are the text, and no piece holds the separator.
pub proof fn pieces_join_to_the_text(s: Seq<char>, c: char)
    ensures
        joined(split_of(s, c), seq![c]) == s,
        forall|i: int, j: int|
            0 <= i < split_of(s, c).len() && 0 <= j < split_of(s, c)[i].len()
                ==> #[trigger] split_of(s, c)[i][j] != c,
    decreases s.len(),
{
    lemma_find_char(s, c);
    match find_char(s, c) {
        Some(k) => {
            let rest = split_of(s.skip(k + 1), c);
            pieces_join_to_the_text(s.skip(k + 1), c);
            lemma_split_nonempty(s.skip(k + 1), c);
            lemma_joined_front(s.take(k), rest, seq![c]);
            assert(s =~= s.take(k) + seq![c] + s.skip(k + 1));
            let all = split_of(s, c);
            assert forall|i: int, j: int|
                0 <= i < all.len() && 0 <= j < all[i].len() implies #[trigger] all[i][j] != c by {
                if i > 0 {
                    assert(all[i] == rest[i - 1]);
                } else {
                    assert(all[i] == s.take(k));
                    assert(s[j] != c);
                }
            }
        },
        None => {},
    }
}

/// The number that digits in a base stand for.
pub open spec fn value_in(s: Seq<char>, base: nat) -> nat
    decreases s.len(),
{
    if s.len() == 0 {
        0
    } else {
        base * value_in(s.drop_last(), base) + (s.last() as nat - '0' as nat) as nat
    }
}

/// Written numbers stand for themselves: the decimal digits of a number, read
/// in base ten, are the number; there is no leading zero.
pub proof fn decimals_stand_for_their_number(n: nat)
    ensures
        value_in(decimal(n), 10) == n,
        decimal(n).len() > 0,
        n > 0 ==> decimal(n)[0] != '0',
        forall|i: int| 0 <= i < decimal(n).len() ==> '0' <= #[trigger] decimal(n)[i] <= '9',
    decreases n,
{
    let d = decimal(n);
    if n < 10 {
        assert(d.drop_last() =~= seq![]);
        reveal_with_fuel(value_in, 2);
    } else {
        decimals_stand_for_their_number(n / 10);
        assert(d.drop_last() =~= decimal(n / 10));
    }
}

/// The octal digits of a number, read in base eight, are the number.
pub proof fn octals_stand_for_their_number(n: nat)
    ensures
        value_in(octal(n), 8) == n,
        octal(n).len() > 0,
        n > 0 ==> octal(n)[0] != '0',
        forall|i: int| 0 <= i < octal(n).len() ==> '0' <= #[trigger] octal(n)[i] <= '7',
    decreases n,
{
    let d = octal(n);
    if n < 8 {
        assert(d.drop_last() =~= seq![]);
        reveal_with_fuel(value_in, 2);
    } else {
        octals_stand_for_their_number(n / 8);
        assert(d.drop_last() =~= octal(n / 8));
    }
}

/// Words hold no white space and are not empty.
pub proof fn words_hold_no_white_space(s: Seq<char>)
    ensures
        forall|i: int|
            0 <= i < words_of(s).len() ==> (#[trigger] words_of(s)[i]).len() > 0 && (forall|
                j: int,
            |
                0 <= j < words_of(s)[i].len() ==> !whitespace(#[trigger] words_of(s)[i][j])),
    decreases s.len(),
{
    lemma_run_len(s, true);
    let t = s.skip(run_len(s, true) as int);
    if t.len() > 0 {
        lemma_run_len(t, false);
        let k = run_len(t, false) as int;
        let rest = words_of(t.skip(k));
        words_hold_no_white_space(t.skip(k));
        let all = words_of(s);
        assert forall|i: int| 0 <= i < all.len() implies (#[trigger] all[i]).len() > 0 && (forall|
            j: int,
        |
            0 <= j < all[i].len() ==> !whitespace(#[trigger] all[i][j])) by {
            if i > 0 {
                assert(all[i] == rest[i - 1]);
            } else {
                assert(all[i] == t.take(k));
            }
        }
    }
}

/// A text is cut at its first separator, and goes on behind it.
pub proof fn a_piece_ends_at_the_separator(a: Seq<char>, b: Seq<char>, c: char)
    requires
        !a.contains(c),
    ensures
        split_of(a, c) == seq![a],
        split_of(a + seq![c] + b, c) == seq![a] + split_of(b, c),
{
    let s = a + seq![c] + b;
    lemma_find_char(a, c);
    if let Some(i) = find_char(a, c) {
        assert(a[i] == c);
    }
    lemma_find_char(s, c);
    let n = a.len() as int;
    assert(s[n] == c);
    match find_char(s, c) {
        Some(i) => {
            if i < n {
                assert(s[i] == a[i]);
            } else if i > n {
                assert(s[n] != c);
            }
            assert(s.take(n) =~= a);
            assert(s.skip(n + 1) =~= b);
        },
        None => {
            assert(s[n] != c);
        },
    }
}

} // verus!
