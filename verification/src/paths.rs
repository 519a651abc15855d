//! Repository paths and maps keyed by them.
use crate::text;
use crate::text::{chars_of, string_of, texts};
use vstd::prelude::*;

verus! {

/// Position one past the last `/` of `s`, or 0.
pub open spec fn last_segment_start(s: Seq<char>) -> int
    decreases s.len(),
{
    if s.len() == 0 {
        0
    } else if s.last() == '/' {
        s.len() as int
    } else {
        last_segment_start(s.drop_last())
    }
}

/// The last segment of a path.
pub open spec fn file_name(s: Seq<char>) -> Seq<char> {
    s.skip(last_segment_start(s))
}

/// The path before the last `/`; empty for a path at the root.
pub open spec fn parent_path(s: Seq<char>) -> Seq<char> {
    if last_segment_start(s) == 0 {
        seq![]
    } else {
        s.take(last_segment_start(s) - 1)
    }
}

/// Where the last segment starts lies inside the path.
pub proof fn lemma_last_segment(s: Seq<char>)
    ensures
        0 <= last_segment_start(s) <= s.len(),
    decreases s.len(),
{
    if s.len() > 0 && s.last() != '/' {
        lemma_last_segment(s.drop_last());
    }
}

fn segment_start(cs: &Vec<char>) -> (r: usize)
    ensures
        r == last_segment_start(cs@),
        r <= cs@.len(),
{
    let mut i: usize = cs.len();
    assert(cs@.take(i as int) =~= cs@);
    while i > 0 && cs[i - 1] != '/'
        invariant
            i <= cs@.len(),
            last_segment_start(cs@.take(i as int)) == last_segment_start(cs@),
        decreases i,
    {
        assert(cs@.take(i as int).drop_last() =~= cs@.take(i as int - 1));
        i -= 1;
    }
    i
}

/// The last segment of a path.
pub fn extract_filename(path: &str) -> (r: String)
    ensures
        r@ == file_name(path@),
{
    let cs = chars_of(path);
    let i: usize = segment_start(&cs);
    let r = string_of(&cs, i, cs.len());
    assert(r@ =~= file_name(path@));
    r
}

/// The path before the last `/`; empty for a path at the root.
pub fn extract_parent(path: &str) -> (r: String)
    ensures
        r@ == parent_path(path@),
{
    let cs = chars_of(path);
    let i: usize = segment_start(&cs);
    if i == 0 {
        let r: String = String::new();
        assert(r@ =~= parent_path(path@));
        r
    } else {
        let r = string_of(&cs, 0, i - 1);
        assert(r@ =~= parent_path(path@));
        r
    }
}

/// How much of a path stands before its first ordinary component: the root,
/// or a leading `.`.
pub open spec fn lead(s: Seq<char>) -> nat {
    if s.len() > 0 && (s[0] == '/' || s[0] == '.' && (s.len() == 1 || s[1] == '/')) {
        1
    } else {
        0
    }
}

/// Where the last component of a path starts, behind `from`.
pub open spec fn component_start(s: Seq<char>, from: nat) -> int {
    from + last_segment_start(s.skip(from as int))
}

/// What stands before a component that starts at `at`, without the `/` between.
pub open spec fn before_component(s: Seq<char>, from: nat, at: int) -> Seq<char> {
    s.take(
        if at > from {
            at - 1
        } else {
            from as int
        },
    )
}

/// A path without what counts for nothing at its end: repeated and trailing
/// `/`, and `.` behind its lead.
pub open spec fn trimmed_path(s: Seq<char>, from: nat) -> Seq<char>
    decreases s.len(),
{
    let at = component_start(s, from);
    if s.len() <= from || at < s.len() && s.skip(at) != seq!['.'] {
        s
    } else {
        proof {
            lemma_last_segment(s.skip(from as int));
        }
        trimmed_path(before_component(s, from, at), from)
    }
}

/// A path without its last component; empty where it has none, or no other.
/// The components are the texts between `/`, where an empty one, and a `.`
/// that does not lead the path, is none.
pub open spec fn parent_directory(s: Seq<char>) -> Seq<char> {
    let from = lead(s);
    let path = trimmed_path(s, from);
    if path.len() <= from {
        seq![]
    } else {
        trimmed_path(before_component(path, from, component_start(path, from)), from)
    }
}

/// Where the last component of the first `end` characters starts, behind
/// `from`.
fn find_component(cs: &Vec<char>, from: usize, end: usize) -> (r: usize)
    requires
        from <= end <= cs@.len(),
    ensures
        r == component_start(cs@.take(end as int), from as nat),
        from <= r <= end,
{
    let ghost body = cs@.take(end as int).skip(from as int);
    let mut i: usize = end;
    assert(body.take(i - from) =~= body);
    while i > from && cs[i - 1] != '/'
        invariant
            from <= i <= end <= cs@.len(),
            body == cs@.take(end as int).skip(from as int),
            last_segment_start(body.take(i - from)) == last_segment_start(body),
        decreases i,
    {
        assert(body.take(i - from).drop_last() =~= body.take(i - from - 1));
        assert(body.take(i - from).last() == cs@[i - 1]);
        i -= 1;
    }
    proof {
        if i > from {
            assert(body.take(i - from).last() == cs@[i - 1]);
        }
    }
    i
}

/// How many of the first `end` characters are left without what counts for
/// nothing at their end.
fn trim_end(cs: &Vec<char>, from: usize, end: usize) -> (r: usize)
    requires
        from <= end <= cs@.len(),
    ensures
        cs@.take(r as int) == trimmed_path(cs@.take(end as int), from as nat),
        from <= r <= end,
{
    let ghost whole = trimmed_path(cs@.take(end as int), from as nat);
    let mut n: usize = end;
    while n > from
        invariant
            from <= n <= end <= cs@.len(),
            trimmed_path(cs@.take(n as int), from as nat) == whole,
        ensures
            from <= n <= end,
            cs@.take(n as int) == whole,
        decreases n,
    {
        let at: usize = find_component(cs, from, n);
        let ghost path = cs@.take(n as int);
        let lone: bool = at < n && n - at == 1 && cs[at] == '.';
        assert(path.skip(at as int).len() == n - at);
        assert(lone ==> path.skip(at as int) =~= seq!['.']);
        assert(!lone && at < n ==> path.skip(at as int) != seq!['.']) by {
            if path.skip(at as int) == seq!['.'] {
                assert(path.skip(at as int)[0] == cs@[at as int]);
            }
        }
        if at < n && !lone {
            break;
        }
        let cut: usize = if at > from {
            at - 1
        } else {
            from
        };
        assert(before_component(path, from as nat, at as int) =~= cs@.take(cut as int));
        n = cut;
    }
    n
}

/// A path without its last component; empty where it has none, or no other.
pub fn extract_directory(path: &str) -> (r: String)
    ensures
        r@ == parent_directory(path@),
{
    let cs = chars_of(path);
    let len: usize = cs.len();
    let from: usize = if len > 0 && (cs[0] == '/' || cs[0] == '.' && (len == 1 || cs[1] == '/')) {
        1
    } else {
        0
    };
    assert(cs@.take(len as int) =~= cs@);
    let end: usize = trim_end(&cs, from, len);
    if end <= from {
        let r: String = String::new();
        assert(r@ =~= parent_directory(path@));
        return r;
    }
    let at: usize = find_component(&cs, from, end);
    let cut: usize = if at > from {
        at - 1
    } else {
        from
    };
    assert(before_component(cs@.take(end as int), from as nat, at as int) =~= cs@.take(
        cut as int,
    ));
    let kept: usize = trim_end(&cs, from, cut);
    let r = string_of(&cs, 0, kept);
    assert(r@ =~= cs@.take(kept as int));
    r
}

/// The directories above `s`, outermost first: the text before each `/`.
pub open spec fn ancestors(s: Seq<char>) -> Seq<Seq<char>>
    decreases s.len(),
{
    if s.len() == 0 {
        seq![]
    } else if s.last() == '/' {
        ancestors(s.drop_last()).push(s.drop_last())
    } else {
        ancestors(s.drop_last())
    }
}

/// The directories above `path`, outermost first.
pub fn ancestor_directories(path: &str) -> (r: Vec<String>)
    ensures
        texts(r@) == ancestors(path@),
{
    let cs = chars_of(path);
    let mut out: Vec<String> = Vec::new();
    let mut i: usize = 0;
    assert(texts(out@) =~= ancestors(cs@.take(0)));
    while i < cs.len()
        invariant
            i <= cs@.len(),
            texts(out@) == ancestors(cs@.take(i as int)),
        decreases cs@.len() - i,
    {
        assert(cs@.take(i as int + 1).drop_last() =~= cs@.take(i as int));
        if cs[i] == '/' {
            let ghost before = texts(out@);
            let d = string_of(&cs, 0, i);
            assert(d@ =~= cs@.take(i as int));
            out.push(d);
            assert(texts(out@) =~= before.push(cs@.take(i as int)));
        }
        i += 1;
    }
    assert(cs@.take(cs@.len() as int) =~= cs@);
    out
}

/// How many `/` a path holds.
pub open spec fn slashes(s: Seq<char>) -> nat
    decreases s.len(),
{
    if s.len() == 0 {
        0
    } else {
        slashes(s.drop_last()) + (if s.last() == '/' {
            1nat
        } else {
            0nat
        })
    }
}

/// Order of the characters, first difference first.
pub open spec fn text_less(a: Seq<char>, b: Seq<char>) -> bool
    decreases a.len(),
{
    if b.len() == 0 {
        false
    } else if a.len() == 0 {
        true
    } else if a[0] != b[0] {
        a[0] < b[0]
    } else {
        text_less(a.drop_first(), b.drop_first())
    }
}

/// The text order is a strict total order.
pub proof fn lemma_text_less_total(a: Seq<char>, b: Seq<char>)
    ensures
        !(text_less(a, b) && text_less(b, a)),
        text_less(a, b) || text_less(b, a) || a == b,
        text_less(a, b) ==> a != b,
    decreases a.len(),
{
    if a.len() == 0 || b.len() == 0 {
        if a.len() == 0 && b.len() == 0 {
            assert(a =~= b);
        }
    } else if a[0] == b[0] {
        lemma_text_less_total(a.drop_first(), b.drop_first());
        if a.drop_first() == b.drop_first() {
            assert(a =~= seq![a[0]] + a.drop_first());
            assert(b =~= seq![b[0]] + b.drop_first());
        }
    }
}

/// The text order is transitive.
pub proof fn lemma_text_less_trans(a: Seq<char>, b: Seq<char>, c: Seq<char>)
    requires
        text_less(a, b),
        text_less(b, c),
    ensures
        text_less(a, c),
    decreases a.len(),
{
    if a.len() > 0 && a[0] == b[0] && b[0] == c[0] {
        lemma_text_less_trans(a.drop_first(), b.drop_first(), c.drop_first());
    }
}

/// Whether `a` comes before `b` in text order.
pub fn less_text(a: &str, b: &str) -> (r: bool)
    ensures
        r == text_less(a@, b@),
{
    let x = chars_of(a);
    let y = chars_of(b);
    let mut i: usize = 0;
    assert(x@.skip(0) =~= x@);
    assert(y@.skip(0) =~= y@);
    while i < x.len() && i < y.len() && x[i] == y[i]
        invariant
            i <= x@.len(),
            i <= y@.len(),
            text_less(x@.skip(i as int), y@.skip(i as int)) == text_less(a@, b@),
        decreases x@.len() - i,
    {
        assert(x@.skip(i as int).drop_first() =~= x@.skip(i as int + 1));
        assert(y@.skip(i as int).drop_first() =~= y@.skip(i as int + 1));
        i += 1;
    }
    if i >= y.len() {
        false
    } else if i >= x.len() {
        true
    } else {
        x[i] < y[i]
    }
}

fn count_slashes(path: &str) -> (r: usize)
    ensures
        r == slashes(path@),
{
    let cs = chars_of(path);
    let mut n: usize = 0;
    let mut i: usize = 0;
    while i < cs.len()
        invariant
            i <= cs@.len(),
            n == slashes(cs@.take(i as int)),
            n <= i,
        decreases cs@.len() - i,
    {
        assert(cs@.take(i as int + 1).drop_last() =~= cs@.take(i as int));
        if cs[i] == '/' {
            n += 1;
        }
        i += 1;
    }
    assert(cs@.take(cs@.len() as int) =~= cs@);
    n
}

/// Order of directories: shallow before deep, then by text.
pub open spec fn dir_less(a: Seq<char>, b: Seq<char>) -> bool {
    slashes(a) < slashes(b) || (slashes(a) == slashes(b) && text_less(a, b))
}

/// Whether directory `a` comes before directory `b`.
pub fn less_dir(a: &str, b: &str) -> (r: bool)
    ensures
        r == dir_less(a@, b@),
{
    let x: usize = count_slashes(a);
    let y: usize = count_slashes(b);
    x < y || (x == y && less_text(a, b))
}

/// The list with `d` at its place in directory order, once.
pub open spec fn with_dir(list: Seq<Seq<char>>, d: Seq<char>) -> Seq<Seq<char>>
    decreases list.len(),
{
    if list.len() == 0 {
        seq![d]
    } else if list.last() == d {
        list
    } else if dir_less(list.last(), d) {
        list.push(d)
    } else {
        with_dir(list.drop_last(), d).push(list.last())
    }
}

/// The list with all of `ds` at their places, in turn.
pub open spec fn with_dirs(list: Seq<Seq<char>>, ds: Seq<Seq<char>>) -> Seq<Seq<char>>
    decreases ds.len(),
{
    if ds.len() == 0 {
        list
    } else {
        with_dir(with_dirs(list, ds.drop_last()), ds.last())
    }
}

/// Put `d` at its place in directory order, once.
pub fn insert_dir(list: &mut Vec<String>, d: String)
    ensures
        texts(final(list)@) == with_dir(texts(old(list)@), d@),
{
    let ghost start = texts(list@);
    let mut i: usize = list.len();
    assert(start.take(i as int) =~= start);
    assert(with_dir(start.take(i as int), d@) + start.skip(i as int) =~= with_dir(start, d@));
    while i > 0
        invariant
            i <= list@.len(),
            list@ == old(list)@,
            start == texts(list@),
            with_dir(start.take(i as int), d@) + start.skip(i as int) == with_dir(start, d@),
        decreases i,
    {
        let ghost head = start.take(i as int);
        assert(head.last() == list@[i - 1]@);
        if list[i - 1] == d {
            assert(with_dir(start, d@) =~= start);
            return;
        }
        if less_dir(&list[i - 1], &d) {
            assert(with_dir(start, d@) =~= start.take(i as int).push(d@) + start.skip(i as int));
            let ghost dv = d@;
            list.insert(i, d);
            assert(texts(list@) =~= start.take(i as int).push(dv) + start.skip(i as int));
            return;
        }
        assert(head.drop_last() =~= start.take(i as int - 1));
        assert(with_dir(start.take(i as int - 1), d@) + start.skip(i as int - 1) =~= with_dir(
            head,
            d@,
        ) + start.skip(i as int));
        i -= 1;
    }
    let ghost dv = d@;
    assert(start.take(0) =~= Seq::<Seq<char>>::empty());
    list.insert(0, d);
    assert(texts(list@) =~= seq![dv] + start.skip(0));
}

/// Put every directory of `ds` at its place, once.
pub fn insert_dirs(list: &mut Vec<String>, ds: Vec<String>)
    ensures
        texts(final(list)@) == with_dirs(texts(old(list)@), texts(ds@)),
{
    let mut i: usize = 0;
    assert(texts(ds@).take(0) =~= Seq::<Seq<char>>::empty());
    while i < ds.len()
        invariant
            i <= ds@.len(),
            texts(list@) == with_dirs(texts(old(list)@), texts(ds@).take(i as int)),
        decreases ds@.len() - i,
    {
        insert_dir(list, ds[i].clone());
        assert(texts(ds@).take(i as int + 1).drop_last() =~= texts(ds@).take(i as int));
        i += 1;
    }
    assert(texts(ds@).take(ds@.len() as int) =~= texts(ds@));
}

/// A map from paths to values.
#[derive(Debug)]
pub struct PathMap<V> {
    pub entries: Vec<(String, V)>,
}

/// Position of the entry for `k`, if any.
pub open spec fn entry_index<V>(e: Seq<(String, V)>, k: Seq<char>) -> int {
    choose|i: int| 0 <= i < e.len() && (#[trigger] e[i]).0@ == k
}

/// Whether an entry stands for `k`.
pub open spec fn has_entry<V>(e: Seq<(String, V)>, k: Seq<char>) -> bool {
    exists|i: int| 0 <= i < e.len() && (#[trigger] e[i]).0@ == k
}

impl<V> View for PathMap<V> {
    type V = Map<Seq<char>, V>;

    open spec fn view(&self) -> Map<Seq<char>, V> {
        let e = self.entries@;
        Map::new(|k: Seq<char>| has_entry(e, k), |k: Seq<char>| e[entry_index(e, k)].1)
    }
}

impl<V> PathMap<V> {
    /// No path occurs twice.
    pub open spec fn wf(&self) -> bool {
        forall|i: int, j: int|
            0 <= i < j < self.entries@.len() ==> (#[trigger] self.entries@[i]).0@ != (
            #[trigger] self.entries@[j]).0@
    }

    /// The map without entries.
    pub fn new() -> (r: PathMap<V>)
        ensures
            r.wf(),
            r@ == Map::<Seq<char>, V>::empty(),
    {
        let r = PathMap { entries: Vec::new() };
        assert(r@ =~= Map::<Seq<char>, V>::empty());
        r
    }

    /// Position of the entry for `key`.
    pub fn index_of(&self, key: &str) -> (r: Option<usize>)
        requires
            self.wf(),
        ensures
            match r {
                Some(i) => i < self.entries@.len() && self.entries@[i as int].0@ == key@
                    && self@.contains_key(key@) && self@[key@] == self.entries@[i as int].1,
                None => !self@.contains_key(key@),
            },
    {
        let wanted: String = key.to_owned();
        let mut i: usize = 0;
        while i < self.entries.len()
            invariant
                i <= self.entries@.len(),
                wanted@ == key@,
                self.wf(),
                forall|j: int| 0 <= j < i ==> (#[trigger] self.entries@[j]).0@ != key@,
            decreases self.entries@.len() - i,
        {
            if self.entries[i].0 == wanted {
                assert(self.entries@[i as int].0@ == key@);
                assert(has_entry(self.entries@, key@));
                let ghost k = entry_index(self.entries@, key@);
                assert(self.entries@[k].0@ == key@ && k == i);
                return Some(i);
            }
            i += 1;
        }
        None
    }

    /// Whether the map holds `key`.
    pub fn contains_key(&self, key: &str) -> (r: bool)
        requires
            self.wf(),
        ensures
            r == self@.contains_key(key@),
    {
        self.index_of(key).is_some()
    }

    /// The value for `key`.
    pub fn get(&self, key: &str) -> (r: Option<&V>)
        requires
            self.wf(),
        ensures
            match r {
                Some(v) => self@.contains_key(key@) && self@[key@] == *v,
                None => !self@.contains_key(key@),
            },
    {
        match self.index_of(key) {
            Some(i) => Some(&self.entries[i].1),
            None => None,
        }
    }

    /// Set the value for `key`.
    pub fn insert(&mut self, key: String, value: V)
        requires
            old(self).wf(),
        ensures
            final(self).wf(),
            final(self)@ == old(self)@.insert(key@, value),
    {
        let ghost kv = key@;
        let ghost before = self.entries@;
        let ghost was = self@;
        match self.index_of(&key) {
            Some(i) => {
                self.entries.set(i, (key, value));
                assert(self.entries@ =~= before.update(i as int, (key, value)));
                assert forall|a: int, b: int|
                    0 <= a < b < self.entries@.len() implies (#[trigger] self.entries@[a]).0@ != (
                #[trigger] self.entries@[b]).0@ by {
                    assert(before[a].0@ != before[b].0@);
                }
                assert forall|k: Seq<char>| has_entry(self.entries@, k) == has_entry(
                    before,
                    k,
                ) by {
                    if has_entry(before, k) {
                        let x = entry_index(before, k);
                        assert(self.entries@[x].0@ == k);
                    }
                    if has_entry(self.entries@, k) {
                        let x = entry_index(self.entries@, k);
                        assert(before[x].0@ == k);
                    }
                }
                assert forall|k: Seq<char>| has_entry(before, k) implies self@[k] == was.insert(
                    kv,
                    value,
                )[k] by {
                    let x = entry_index(before, k);
                    assert(self.entries@[x].0@ == k);
                    assert(has_entry(self.entries@, k));
                    let y = entry_index(self.entries@, k);
                    assert(self.entries@[y].0@ == k);
                    assert(x == y);
                }
                assert(self@ =~= was.insert(kv, value));
            },
            None => {
                self.entries.push((key, value));
                assert(self.entries@ =~= before.push((key, value)));
                assert forall|a: int, b: int|
                    0 <= a < b < self.entries@.len() implies (#[trigger] self.entries@[a]).0@ != (
                #[trigger] self.entries@[b]).0@ by {
                    if b == before.len() {
                        assert(before[a].0@ != kv) by {
                            if before[a].0@ == kv {
                                assert(has_entry(before, kv));
                            }
                        }
                    } else {
                        assert(before[a].0@ != before[b].0@);
                    }
                }
                assert forall|k: Seq<char>| has_entry(self.entries@, k) == (has_entry(before, k)
                    || k == kv) by {
                    if has_entry(before, k) {
                        let x = entry_index(before, k);
                        assert(self.entries@[x].0@ == k);
                    }
                    if k == kv {
                        assert(self.entries@[before.len() as int].0@ == k);
                    }
                    if has_entry(self.entries@, k) {
                        let x = entry_index(self.entries@, k);
                        if x < before.len() {
                            assert(before[x].0@ == k);
                        }
                    }
                }
                assert forall|k: Seq<char>| has_entry(self.entries@, k) implies self@[k]
                    == was.insert(kv, value)[k] by {
                    let y = entry_index(self.entries@, k);
                    assert(self.entries@[y].0@ == k);
                    if k == kv {
                        assert(self.entries@[before.len() as int].0@ == k);
                        assert(y == before.len());
                    } else {
                        let x = entry_index(before, k);
                        assert(before[x].0@ == k);
                        assert(self.entries@[x].0@ == k);
                        assert(x == y);
                    }
                }
                assert(self@ =~= was.insert(kv, value));
            },
        }
    }

    /// Take the entry for `key` out of the map.
    pub fn remove(&mut self, key: &str) -> (r: Option<V>)
        requires
            old(self).wf(),
        ensures
            final(self).wf(),
            final(self)@ == old(self)@.remove(key@),
            match r {
                Some(v) => old(self)@.contains_key(key@) && v == old(self)@[key@],
                None => !old(self)@.contains_key(key@),
            },
    {
        let ghost before = self.entries@;
        let ghost was = self@;
        match self.index_of(key) {
            Some(i) => {
                let (_, v) = self.entries.remove(i);
                assert(self.entries@ =~= before.remove(i as int));
                assert forall|a: int, b: int|
                    0 <= a < b < self.entries@.len() implies (#[trigger] self.entries@[a]).0@ != (
                #[trigger] self.entries@[b]).0@ by {
                    let x = if a < i {
                        a
                    } else {
                        a + 1
                    };
                    let y = if b < i {
                        b
                    } else {
                        b + 1
                    };
                    assert(before[x].0@ != before[y].0@);
                }
                assert forall|k: Seq<char>| has_entry(self.entries@, k) == (has_entry(before, k)
                    && k != key@) by {
                    if has_entry(before, k) && k != key@ {
                        let x = entry_index(before, k);
                        assert(before[x].0@ == k);
                        if x < i {
                            assert(self.entries@[x].0@ == k);
                        } else {
                            assert(self.entries@[x - 1].0@ == k);
                        }
                    }
                    if has_entry(self.entries@, k) {
                        let y = entry_index(self.entries@, k);
                        assert(self.entries@[y].0@ == k);
                        let x = if y < i {
                            y
                        } else {
                            y + 1
                        };
                        assert(before[x].0@ == k);
                        assert(before[i as int].0@ == key@);
                        assert(x != i);
                    }
                }
                assert forall|k: Seq<char>| has_entry(self.entries@, k) implies self@[k]
                    == was[k] by {
                    let y = entry_index(self.entries@, k);
                    assert(self.entries@[y].0@ == k);
                    let x = if y < i {
                        y
                    } else {
                        y + 1
                    };
                    assert(before[x].0@ == k);
                    let z = entry_index(before, k);
                    assert(before[z].0@ == k);
                    assert(x == z);
                }
                assert(self@ =~= was.remove(key@));
                Some(v)
            },
            None => {
                assert(self@ =~= was.remove(key@));
                None
            },
        }
    }
}

/// Whether a list of texts is in strictly rising order.
pub open spec fn texts_rising(v: Seq<Seq<char>>) -> bool {
    forall|i: int, j: int| 0 <= i < j < v.len() ==> text_less(#[trigger] v[i], #[trigger] v[j])
}

/// Insert `s` into a rising list, once.
pub fn insert_text(v: &mut Vec<String>, s: &str)
    requires
        texts_rising(text::texts(old(v)@)),
    ensures
        texts_rising(text::texts(final(v)@)),
        text::texts(final(v)@).to_set() == text::texts(old(v)@).to_set().insert(s@),
{
    let ghost before = text::texts(v@);
    let mut i: usize = 0;
    while i < v.len() && less_text(&v[i], s)
        invariant
            i <= v@.len(),
            v@ == old(v)@,
            before == text::texts(v@),
            forall|j: int| 0 <= j < i ==> text_less(#[trigger] before[j], s@),
        decreases v@.len() - i,
    {
        assert(before[i as int] == v@[i as int]@);
        i += 1;
    }
    if i < v.len() && text::same_text(&v[i], s) {
        assert(before[i as int] == s@);
        assert(before.to_set() =~= before.to_set().insert(s@));
        return;
    }
    if i < v.len() {
        assert(before[i as int] == v@[i as int]@);
        proof {
            lemma_text_less_total(before[i as int], s@);
        }
        assert(text_less(s@, before[i as int]));
    }
    v.insert(i, s.to_owned());
    let ghost after = text::texts(v@);
    assert(after =~= before.insert(i as int, s@));
    assert forall|a: int, b: int| 0 <= a < b < after.len() implies text_less(
        #[trigger] after[a],
        #[trigger] after[b],
    ) by {
        if a < i && b > i {
            assert(text_less(before[a], before[b - 1]));
        } else if a == i {
            if b - 1 > i {
                assert(text_less(before[i as int], before[b - 1]));
                lemma_text_less_trans(s@, before[i as int], before[b - 1]);
            }
        } else if a > i {
            assert(text_less(before[a - 1], before[b - 1]));
        } else if b < i {
            assert(text_less(before[a], before[b]));
        }
    }
    assert(after.to_set() =~= before.to_set().insert(s@)) by {
        assert forall|x: Seq<char>| after.to_set().contains(x) == before.to_set().insert(
            s@,
        ).contains(x) by {
            if after.contains(x) {
                let k = choose|k: int| 0 <= k < after.len() && after[k] == x;
                if k < i {
                    assert(before[k] == x);
                } else if k > i {
                    assert(before[k - 1] == x);
                }
            }
            if before.contains(x) {
                let k = choose|k: int| 0 <= k < before.len() && before[k] == x;
                if k < i {
                    assert(after[k] == x);
                } else {
                    assert(after[k + 1] == x);
                }
            }
            assert(after[i as int] == s@);
        }
    }
}

/// A path is its directory and its name: put together with the `/` between
/// they are the path again, and the name holds no `/`.
pub proof fn a_path_is_its_directory_and_its_name(s: Seq<char>)
    ensures
        s.contains('/') ==> parent_path(s) + seq!['/'] + file_name(s) == s,
        !s.contains('/') ==> parent_path(s) == Seq::<char>::empty() && file_name(s) == s,
        !file_name(s).contains('/'),
    decreases s.len(),
{
    let k = last_segment_start(s);
    lemma_last_segment(s);
    if s.len() == 0 {
        assert(file_name(s) =~= s);
    } else if s.last() == '/' {
        assert(s[s.len() - 1] == '/');
        assert(file_name(s) =~= seq![]);
        assert(parent_path(s) + seq!['/'] + file_name(s) =~= s);
    } else {
        let h = s.drop_last();
        a_path_is_its_directory_and_its_name(h);
        lemma_last_segment(h);
        assert(file_name(s) =~= file_name(h).push(s.last()));
        if k > 0 {
            assert(parent_path(s) =~= parent_path(h));
        }
        assert(h.contains('/') ==> s.contains('/')) by {
            if h.contains('/') {
                let j = choose|j: int| 0 <= j < h.len() && h[j] == '/';
                assert(s[j] == '/');
            }
        }
        assert(s.contains('/') ==> h.contains('/')) by {
            if s.contains('/') {
                let j = choose|j: int| 0 <= j < s.len() && s[j] == '/';
                assert(h[j] == '/');
            }
        }
        if h.contains('/') {
            assert(h =~= parent_path(h) + seq!['/'] + file_name(h));
            assert(k > 0) by {
                if k == 0 {
                    assert(parent_path(h) =~= seq![]);
                    assert(file_name(h) =~= h);
                }
            }
            assert(s =~= h.push(s.last()));
            assert((parent_path(h) + seq!['/'] + file_name(h)).push(s.last()) =~= parent_path(s)
                + seq!['/'] + file_name(h).push(s.last()));
        } else {
            assert(file_name(h).len() == h.len());
            assert(k == 0);
            assert(file_name(s) =~= s);
        }
        assert(!file_name(s).contains('/')) by {
            if file_name(s).contains('/') {
                let j = choose|j: int| 0 <= j < file_name(s).len() && file_name(s)[j] == '/';
                assert(file_name(h)[j] == '/');
                assert(file_name(h).contains('/'));
            }
        }
    }
}

/// The directories above a path are the texts before each of its `/`: every
/// one is, every `/` gives one, and the outer ones come first.
pub proof fn ancestors_are_the_directories_above(s: Seq<char>)
    ensures
        forall|i: int|
            0 <= i < ancestors(s).len() ==> {
                let a = #[trigger] ancestors(s)[i];
                a.len() < s.len() && s.take(a.len() as int) == a && s[a.len() as int] == '/'
            },
        forall|j: int|
            0 <= j < s.len() && #[trigger] s[j] == '/' ==> ancestors(s).contains(s.take(j)),
        forall|i: int, j: int|
            0 <= i < j < ancestors(s).len() ==> (#[trigger] ancestors(s)[i]).len() < (
            #[trigger] ancestors(s)[j]).len(),
    decreases s.len(),
{
    if s.len() > 0 {
        let h = s.drop_last();
        let all = ancestors(s);
        let up = ancestors(h);
        ancestors_are_the_directories_above(h);
        assert forall|i: int| 0 <= i < all.len() implies {
            let a = #[trigger] all[i];
            a.len() < s.len() && s.take(a.len() as int) == a && s[a.len() as int] == '/'
        } by {
            if i < up.len() {
                let a = up[i];
                assert(all[i] == a);
                assert(s.take(a.len() as int) =~= h.take(a.len() as int));
            } else {
                assert(s.take(h.len() as int) =~= h);
            }
        }
        assert forall|j: int| 0 <= j < s.len() && #[trigger] s[j] == '/' implies all.contains(
            s.take(j),
        ) by {
            if j < h.len() {
                assert(h[j] == '/');
                assert(s.take(j) =~= h.take(j));
                let i = choose|i: int| 0 <= i < up.len() && up[i] == h.take(j);
                assert(all[i] == s.take(j));
            } else {
                assert(s.take(j) =~= h);
                assert(all[up.len() as int] == h);
            }
        }
        assert forall|i: int, j: int| 0 <= i < j < all.len() implies (#[trigger] all[i]).len() < (
        #[trigger] all[j]).len() by {
            assert(all[i] == up[i]);
            if j < up.len() {
                assert(all[j] == up[j]);
            }
        }
    }
}

/// Whether a list of directories is in order, outer ones first, each once.
pub open spec fn dirs_rising(v: Seq<Seq<char>>) -> bool {
    forall|i: int, j: int| 0 <= i < j < v.len() ==> dir_less(#[trigger] v[i], #[trigger] v[j])
}

proof fn lemma_dir_less_trans(a: Seq<char>, b: Seq<char>, c: Seq<char>)
    requires
        dir_less(a, b),
        dir_less(b, c),
    ensures
        dir_less(a, c),
{
    if slashes(a) == slashes(b) && slashes(b) == slashes(c) {
        lemma_text_less_trans(a, b, c);
    }
}

/// A directory is put at its place in a list: the list stays in order with
/// each directory once, and holds that directory besides what it held.
pub proof fn a_directory_goes_to_its_place(list: Seq<Seq<char>>, d: Seq<char>)
    requires
        dirs_rising(list),
    ensures
        dirs_rising(with_dir(list, d)),
        with_dir(list, d).to_set() == list.to_set().insert(d),
    decreases list.len(),
{
    let r = with_dir(list, d);
    if list.len() == 0 {
        assert(r[0] == d);
        assert(r.to_set() =~= list.to_set().insert(d));
    } else {
        let h = list.drop_last();
        let z = list.last();
        assert forall|i: int, j: int| 0 <= i < j < h.len() implies dir_less(
            #[trigger] h[i],
            #[trigger] h[j],
        ) by {
            assert(h[i] == list[i] && h[j] == list[j]);
        }
        assert(list.to_set() =~= h.to_set().insert(z)) by {
            assert(list =~= h.push(z));
            lemma_pushed_set(h, z);
        }
        if z == d {
            assert(list[list.len() - 1] == d);
            assert(r.to_set() =~= list.to_set().insert(d));
        } else if dir_less(z, d) {
            lemma_pushed_set(list, d);
            assert forall|i: int, j: int| 0 <= i < j < r.len() implies dir_less(
                #[trigger] r[i],
                #[trigger] r[j],
            ) by {
                assert(r[i] == list[i]);
                if j < list.len() {
                    assert(r[j] == list[j]);
                } else if i < list.len() - 1 {
                    assert(dir_less(list[i], list[list.len() - 1]));
                    lemma_dir_less_trans(list[i], z, d);
                }
            }
        } else {
            a_directory_goes_to_its_place(h, d);
            let w = with_dir(h, d);
            lemma_pushed_set(w, z);
            assert(r.to_set() =~= list.to_set().insert(d));
            assert(dir_less(d, z)) by {
                lemma_text_less_total(d, z);
            }
            assert forall|i: int, j: int| 0 <= i < j < r.len() implies dir_less(
                #[trigger] r[i],
                #[trigger] r[j],
            ) by {
                assert(r[i] == w[i]);
                if j < w.len() {
                    assert(r[j] == w[j]);
                } else {
                    assert(w.to_set().contains(w[i]));
                    if w[i] != d {
                        assert(h.to_set().contains(w[i]));
                        let k = choose|k: int| 0 <= k < h.len() && h[k] == w[i];
                        assert(dir_less(list[k], list[list.len() - 1]));
                    }
                }
            }
        }
    }
}

proof fn lemma_pushed_set(s: Seq<Seq<char>>, x: Seq<char>)
    ensures
        s.push(x).to_set() == s.to_set().insert(x),
{
    let p = s.push(x);
    assert forall|y: Seq<char>| p.to_set().contains(y) <==> s.to_set().insert(x).contains(y) by {
        if p.contains(y) {
            let j = choose|j: int| 0 <= j < p.len() && p[j] == y;
            if j < s.len() {
                assert(s[j] == y);
            }
        }
        if s.contains(y) {
            let j = choose|j: int| 0 <= j < s.len() && s[j] == y;
            assert(p[j] == y);
        }
        assert(p[s.len() as int] == x);
    }
    assert(p.to_set() =~= s.to_set().insert(x));
}

} // verus!
