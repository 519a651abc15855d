//! Git object ids and their hexadecimal text.
use crate::error::{git_error, CliError};
use crate::line_units::same_bytes;
use crate::push::GitHashAlgorithm;
use crate::text;
use crate::text::to_decimal;
use vstd::prelude::*;
use vstd::utf8;

verus! {

/// An object id, with the algorithm that made it.
#[derive(Debug)]
pub struct GitObjectId {
    pub algorithm: GitHashAlgorithm,
    pub bytes: Vec<u8>,
}

/// A `GitObjectId` as a value.
#[verifier::ext_equal]
pub struct ObjectIdView {
    pub algorithm: GitHashAlgorithm,
    pub bytes: Seq<u8>,
}

impl View for GitObjectId {
    type V = ObjectIdView;

    open spec fn view(&self) -> ObjectIdView {
        ObjectIdView { algorithm: self.algorithm, bytes: self.bytes@ }
    }
}

/// Number of bytes of an id.
pub open spec fn id_width(a: GitHashAlgorithm) -> nat {
    match a {
        GitHashAlgorithm::Sha1 => 20,
        GitHashAlgorithm::Sha256 => 32,
    }
}

/// Name of an algorithm in messages.
pub open spec fn algorithm_title(a: GitHashAlgorithm) -> Seq<char> {
    match a {
        GitHashAlgorithm::Sha1 => "Sha1"@,
        GitHashAlgorithm::Sha256 => "Sha256"@,
    }
}

fn title_of(a: GitHashAlgorithm) -> (r: &'static str)
    ensures
        r@ == algorithm_title(a),
{
    match a {
        GitHashAlgorithm::Sha1 => "Sha1",
        GitHashAlgorithm::Sha256 => "Sha256",
    }
}

impl GitObjectId {
    /// Whether the id is as wide as its algorithm says.
    pub open spec fn wf(&self) -> bool {
        self.bytes@.len() == id_width(self.algorithm)
    }

    /// The id with these bytes, if they are as many as the algorithm says.
    pub fn new(algorithm: GitHashAlgorithm, bytes: Vec<u8>) -> (r: Option<GitObjectId>)
        ensures
            r is Some <==> bytes@.len() == id_width(algorithm),
            r matches Some(id) ==> id.wf() && id@ == (ObjectIdView { algorithm, bytes: bytes@ }),
    {
        let width: usize = match algorithm {
            GitHashAlgorithm::Sha1 => 20,
            GitHashAlgorithm::Sha256 => 32,
        };
        if bytes.len() == width {
            Some(GitObjectId { algorithm, bytes })
        } else {
            None
        }
    }
}

/// Whether two ids are the same.
pub fn same_oid(a: &GitObjectId, b: &GitObjectId) -> (r: bool)
    ensures
        r == (a@ == b@),
{
    a.algorithm == b.algorithm && same_bytes(a.bytes.as_slice(), b.bytes.as_slice())
}

/// The hexadecimal digit of a number below sixteen.
pub open spec fn hex_digit(n: int) -> char {
    if n < 10 {
        (n + 48) as char
    } else {
        (n + 87) as char
    }
}

/// The hexadecimal text of bytes, in lower case.
pub open spec fn hex_text(bytes: Seq<u8>) -> Seq<char>
    decreases bytes.len(),
{
    if bytes.len() == 0 {
        seq![]
    } else {
        hex_text(bytes.drop_last()).push(hex_digit(bytes.last() as int / 16)).push(
            hex_digit(bytes.last() as int % 16),
        )
    }
}

fn digit_of(n: u8) -> (r: char)
    requires
        n < 16,
    ensures
        r == hex_digit(n as int),
{
    if n < 10 {
        (n + 48) as char
    } else {
        (n + 87) as char
    }
}

/// The hexadecimal text of bytes, in lower case.
pub fn hex_of(bytes: &[u8]) -> (r: String)
    ensures
        r@ == hex_text(bytes@),
{
    let mut out: String = String::new();
    let mut i: usize = 0;
    assert(bytes@.take(0) =~= Seq::<u8>::empty());
    while i < bytes.len()
        invariant
            i <= bytes@.len(),
            out@ == hex_text(bytes@.take(i as int)),
        decreases bytes@.len() - i,
    {
        assert(bytes@.take(i as int + 1).drop_last() =~= bytes@.take(i as int));
        let b: u8 = bytes[i];
        out.push(digit_of(b / 16));
        out.push(digit_of(b % 16));
        i += 1;
    }
    assert(bytes@.take(bytes@.len() as int) =~= bytes@);
    out
}

/// The hexadecimal text of bytes; empty where there are none.
pub fn hex_bytes(bytes: Option<&[u8]>) -> (r: String)
    ensures
        r@ == match bytes {
            Some(b) => hex_text(b@),
            None => seq![],
        },
{
    match bytes {
        Some(b) => hex_of(b),
        None => String::new(),
    }
}

/// The hexadecimal text of an object id.
pub fn tagged_oid_hex(oid: &GitObjectId) -> (r: String)
    ensures
        r@ == hex_text(oid@.bytes),
{
    hex_of(&oid.bytes)
}

/// The hexadecimal text of an object id, as the bytes of a submodule entry.
pub fn oid_bytes_as_hex(oid: &GitObjectId) -> (r: Vec<u8>)
    ensures
        r@ == utf8::encode_utf8(hex_text(oid@.bytes)),
{
    let t = hex_of(&oid.bytes);
    let bytes = t.as_str().as_bytes();
    crate::line_units::clone_bytes(bytes)
}

/// The value of a hexadecimal digit in either case.
pub open spec fn hex_value(b: u8) -> Option<int> {
    if 48 <= b <= 57 {
        Some(b - 48)
    } else if 97 <= b <= 102 {
        Some(b - 87)
    } else if 65 <= b <= 70 {
        Some(b - 55)
    } else {
        None
    }
}

fn value_of(b: u8) -> (r: Option<u8>)
    ensures
        match hex_value(b) {
            Some(v) => r matches Some(x) && x == v && x < 16,
            None => r is None,
        },
{
    if 48 <= b && b <= 57 {
        Some(b - 48)
    } else if 97 <= b && b <= 102 {
        Some(b - 87)
    } else if 65 <= b && b <= 70 {
        Some(b - 55)
    } else {
        None
    }
}

/// Whether all bytes are hexadecimal digits.
pub open spec fn all_hex(s: Seq<u8>) -> bool {
    forall|i: int| 0 <= i < s.len() ==> hex_value(#[trigger] s[i]) is Some
}

/// The bytes that pairs of hexadecimal digits stand for.
pub open spec fn paired(s: Seq<u8>) -> Seq<u8> {
    Seq::new(
        s.len() / 2,
        |i: int| (hex_value(s[2 * i])->0 * 16 + hex_value(s[2 * i + 1])->0) as u8,
    )
}

/// The algorithm of an id with this many bytes.
pub open spec fn algorithm_of_width(n: nat) -> Option<GitHashAlgorithm> {
    if n == 20 {
        Some(GitHashAlgorithm::Sha1)
    } else if n == 32 {
        Some(GitHashAlgorithm::Sha256)
    } else {
        None
    }
}

/// The object id that a hexadecimal text stands for.
pub open spec fn oid_of_hex(s: Seq<u8>) -> Option<ObjectIdView> {
    if all_hex(s) {
        match algorithm_of_width(s.len() / 2) {
            Some(algorithm) => Some(ObjectIdView { algorithm, bytes: paired(s) }),
            None => None,
        }
    } else {
        None
    }
}

/// Read an object id from its hexadecimal text.
pub fn tagged_oid_from_hex(hex: &str) -> (r: Option<GitObjectId>)
    requires
        utf8::encode_utf8(hex@).len() % 2 == 0 || !all_hex(utf8::encode_utf8(hex@)),
    ensures
        match oid_of_hex(utf8::encode_utf8(hex@)) {
            Some(v) => r matches Some(id) && id.wf() && id@ == v,
            None => r is None,
        },
{
    let s = hex.as_bytes();
    let ghost sv = s@;
    let mut bytes: Vec<u8> = Vec::new();
    let mut i: usize = 0;
    while i < s.len()
        invariant
            i <= s@.len(),
            i % 2 == 0,
            sv == s@,
            sv == utf8::encode_utf8(hex@),
            sv.len() % 2 == 0 || !all_hex(sv),
            bytes@.len() == i / 2,
            forall|k: int| 0 <= k < i ==> hex_value(#[trigger] sv[k]) is Some,
            forall|k: int|
                0 <= k < bytes@.len() ==> #[trigger] bytes@[k] == (hex_value(sv[2 * k])->0 * 16
                    + hex_value(sv[2 * k + 1])->0) as u8,
        decreases s@.len() - i,
    {
        match value_of(s[i]) {
            None => {
                assert(hex_value(sv[i as int]) is None);
                return None;
            },
            Some(hi) => {
                if i + 1 == s.len() {
                    assert(all_hex(sv));
                    return None;
                }
                match value_of(s[i + 1]) {
                    None => {
                        assert(hex_value(sv[i as int + 1]) is None);
                        return None;
                    },
                    Some(lo) => {
                        bytes.push(hi * 16 + lo);
                    },
                }
            },
        }
        i += 2;
    }
    assert(all_hex(sv));
    assert(bytes@ =~= paired(sv));
    if bytes.len() == 20 {
        GitObjectId::new(GitHashAlgorithm::Sha1, bytes)
    } else if bytes.len() == 32 {
        GitObjectId::new(GitHashAlgorithm::Sha256, bytes)
    } else {
        None
    }
}

proof fn lemma_hex_text(bytes: Seq<u8>)
    ensures
        hex_text(bytes).len() == 2 * bytes.len(),
        forall|i: int|
            0 <= i < bytes.len() ==> #[trigger] hex_text(bytes)[2 * i] == hex_digit(
                bytes[i] as int / 16,
            ),
        forall|i: int|
            0 <= i < bytes.len() ==> #[trigger] hex_text(bytes)[2 * i + 1] == hex_digit(
                bytes[i] as int % 16,
            ),
    decreases bytes.len(),
{
    if bytes.len() > 0 {
        lemma_hex_text(bytes.drop_last());
        let head = bytes.drop_last();
        assert forall|i: int| 0 <= i < bytes.len() implies #[trigger] hex_text(bytes)[2 * i]
            == hex_digit(bytes[i] as int / 16) by {
            if i < head.len() {
                assert(hex_text(head)[2 * i] == hex_digit(head[i] as int / 16));
            }
        }
        assert forall|i: int| 0 <= i < bytes.len() implies #[trigger] hex_text(bytes)[2 * i + 1]
            == hex_digit(bytes[i] as int % 16) by {
            if i < head.len() {
                assert(hex_text(head)[2 * i + 1] == hex_digit(head[i] as int % 16));
            }
        }
    }
}

proof fn lemma_digit_value(n: int)
    requires
        0 <= n < 16,
    ensures
        hex_value(hex_digit(n) as u8) == Some(n),
        '\0' <= hex_digit(n) <= '\u{7f}',
{
}

/// The hexadecimal text of bytes is twice as long, and plain ASCII.
pub proof fn lemma_hex_is_ascii(bytes: Seq<u8>)
    ensures
        hex_text(bytes).len() == 2 * bytes.len(),
        utf8::is_ascii_chars(hex_text(bytes)),
{
    let t = hex_text(bytes);
    lemma_hex_text(bytes);
    assert forall|i: int| 0 <= i < t.len() implies '\0' <= #[trigger] t[i] <= '\u{7f}' by {
        let k = i / 2;
        lemma_digit_value(bytes[k] as int / 16);
        lemma_digit_value(bytes[k] as int % 16);
        if i % 2 == 0 {
            assert(t[2 * k] == hex_digit(bytes[k] as int / 16));
        } else {
            assert(t[2 * k + 1] == hex_digit(bytes[k] as int % 16));
        }
    }
}

/// What is written of an object id is read back as the same id.
pub proof fn hex_round_trip(oid: ObjectIdView)
    requires
        oid.bytes.len() == id_width(oid.algorithm),
    ensures
        oid_of_hex(utf8::encode_utf8(hex_text(oid.bytes))) == Some(oid),
{
    let b = oid.bytes;
    let t = hex_text(b);
    lemma_hex_text(b);
    lemma_hex_is_ascii(b);
    utf8::is_ascii_chars_encode_utf8(t);
    let s = utf8::encode_utf8(t);
    assert forall|i: int| 0 <= i < s.len() implies hex_value(#[trigger] s[i]) is Some by {
        let k = i / 2;
        lemma_digit_value(b[k] as int / 16);
        lemma_digit_value(b[k] as int % 16);
        assert(t[i] as u8 == s[i]);
        if i % 2 == 0 {
            assert(t[2 * k] == hex_digit(b[k] as int / 16));
        } else {
            assert(t[2 * k + 1] == hex_digit(b[k] as int % 16));
        }
    }
    assert(paired(s) =~= b) by {
        assert forall|k: int| 0 <= k < b.len() implies paired(s)[k] == b[k] by {
            lemma_digit_value(b[k] as int / 16);
            lemma_digit_value(b[k] as int % 16);
            assert(t[2 * k] as u8 == s[2 * k]);
            assert(t[2 * k + 1] as u8 == s[2 * k + 1]);
            assert(t[2 * k] == hex_digit(b[k] as int / 16));
            assert(t[2 * k + 1] == hex_digit(b[k] as int % 16));
            assert((b[k] as int / 16) * 16 + b[k] as int % 16 == b[k]);
        }
    }
}

/// Hexadecimal text loses nothing: distinct bytes have distinct texts.
pub proof fn lemma_hex_injective(a: Seq<u8>, b: Seq<u8>)
    requires
        hex_text(a) == hex_text(b),
    ensures
        a == b,
{
    lemma_hex_text(a);
    lemma_hex_text(b);
    assert forall|k: int| 0 <= k < a.len() implies a[k] == b[k] by {
        let t = hex_text(a);
        assert(t[2 * k] == hex_digit(a[k] as int / 16));
        assert(t[2 * k + 1] == hex_digit(a[k] as int % 16));
        assert(hex_text(b)[2 * k] == hex_digit(b[k] as int / 16));
        assert(hex_text(b)[2 * k + 1] == hex_digit(b[k] as int % 16));
        lemma_digit_value(a[k] as int / 16);
        lemma_digit_value(a[k] as int % 16);
        lemma_digit_value(b[k] as int / 16);
        lemma_digit_value(b[k] as int % 16);
        assert((a[k] as int / 16) * 16 + a[k] as int % 16 == a[k]);
        assert((b[k] as int / 16) * 16 + b[k] as int % 16 == b[k]);
    }
    assert(a =~= b);
}

/// Whether a text is a full-length hexadecimal object id.
pub open spec fn full_oid(s: Seq<char>) -> bool {
    let b = utf8::encode_utf8(s);
    (b.len() == 40 || b.len() == 64) && all_hex(b)
}

/// Whether a text is a full-length hexadecimal object id.
pub fn is_full_oid(value: &str) -> (r: bool)
    ensures
        r == full_oid(value@),
{
    let s = value.as_bytes();
    if s.len() != 40 && s.len() != 64 {
        return false;
    }
    let mut i: usize = 0;
    while i < s.len()
        invariant
            i <= s@.len(),
            s@ == utf8::encode_utf8(value@),
            forall|k: int| 0 <= k < i ==> hex_value(#[trigger] s@[k]) is Some,
        decreases s@.len() - i,
    {
        if value_of(s[i]).is_none() {
            assert(hex_value(s@[i as int]) is None);
            return false;
        }
        i += 1;
    }
    true
}

/// Why the width of a text names no algorithm.
pub open spec fn unclassified_sha(sha: Seq<char>) -> Seq<char> {
    "cannot classify Git hash algorithm for "@ + text::decimal(utf8::encode_utf8(sha).len())
        + "-character SHA '"@ + sha + "'"@
}

/// The algorithm of a commit id, by the width of its text.
pub fn git_algorithm_for_sha(sha: &str) -> (r: Result<GitHashAlgorithm, CliError>)
    ensures
        match r {
            Ok(a) => utf8::encode_utf8(sha@).len() == 2 * id_width(a),
            Err(e) => utf8::encode_utf8(sha@).len() != 40 && utf8::encode_utf8(sha@).len() != 64
                && e.is_git_error(unclassified_sha(sha@)),
        },
{
    let n: usize = sha.as_bytes().len();
    if n == 40 {
        Ok(GitHashAlgorithm::Sha1)
    } else if n == 64 {
        Ok(GitHashAlgorithm::Sha256)
    } else {
        let mut m: String = "cannot classify Git hash algorithm for ".to_owned();
        m.append(&to_decimal(n as u64));
        m.append("-character SHA '");
        m.append(sha);
        m.append("'");
        Err(git_error(m))
    }
}

/// Why an id does not fit its algorithm.
pub open spec fn misfit_oid(oid: Seq<u8>, a: GitHashAlgorithm) -> Seq<char> {
    "Git object ID "@ + hex_text(oid) + " does not match "@ + algorithm_title(a)
}

/// Why an id does not fit its algorithm.
pub fn misfit_text(oid: &Vec<u8>, a: GitHashAlgorithm) -> (r: String)
    ensures
        r@ == misfit_oid(oid@, a),
{
    let mut m: String = "Git object ID ".to_owned();
    m.append(&hex_of(oid));
    m.append(" does not match ");
    m.append(title_of(a));
    m
}

/// The object id with these bytes.
pub fn git_object_id(algorithm: GitHashAlgorithm, oid: Vec<u8>) -> (r: Result<
    GitObjectId,
    CliError,
>)
    ensures
        match r {
            Ok(id) => id.wf() && id@ == (ObjectIdView { algorithm, bytes: oid@ }),
            Err(e) => oid@.len() != id_width(algorithm) && e.is_git_error(
                misfit_oid(oid@, algorithm),
            ),
        },
{
    let complaint = misfit_text(&oid, algorithm);
    match GitObjectId::new(algorithm, oid) {
        Some(id) => Ok(id),
        None => Err(git_error(complaint)),
    }
}

/// The value of a hexadecimal character in either case.
pub open spec fn char_value(c: char) -> Option<int> {
    if '0' <= c <= '9' {
        Some(c as int - 48)
    } else if 'a' <= c <= 'f' {
        Some(c as int - 87)
    } else if 'A' <= c <= 'F' {
        Some(c as int - 55)
    } else {
        None
    }
}

/// Whether a text can be read as a Git id: one to forty hexadecimal digits.
pub open spec fn readable_oid(s: Seq<char>) -> bool {
    &&& 1 <= s.len() <= 40
    &&& forall|i: int| 0 <= i < s.len() ==> char_value(#[trigger] s[i]) is Some
}

/// The digit at `p`, zero behind the end of the text.
pub open spec fn digit_at(s: Seq<char>, p: int) -> int {
    if p < s.len() {
        char_value(s[p])->0
    } else {
        0
    }
}

/// The twenty bytes that a readable text stands for.
pub open spec fn read_oid(s: Seq<char>) -> Seq<u8> {
    Seq::new(20, |i: int| (digit_at(s, 2 * i) * 16 + digit_at(s, 2 * i + 1)) as u8)
}

/// The algorithm of the ids that are as long as `sha`.
pub open spec fn sha_algorithm(sha: Seq<char>) -> Option<GitHashAlgorithm> {
    if utf8::encode_utf8(sha).len() == 40 {
        Some(GitHashAlgorithm::Sha1)
    } else if utf8::encode_utf8(sha).len() == 64 {
        Some(GitHashAlgorithm::Sha256)
    } else {
        None
    }
}

/// Whether a text names no object of the algorithm `a`.
pub open spec fn refused(a: GitHashAlgorithm, s: Seq<char>) -> bool {
    a != GitHashAlgorithm::Sha1 || !readable_oid(s)
}

/// Whether `e` tells why a text names no object of the algorithm `a`.
pub open spec fn tells_refusal(e: CliError, a: GitHashAlgorithm, s: Seq<char>) -> bool {
    if readable_oid(s) {
        a == GitHashAlgorithm::Sha256 && e.is_git_error(misfit_oid(read_oid(s), a))
    } else {
        exists|detail: Seq<char>| #[trigger]
            e.is_git_error("invalid Git commit SHA '"@ + s + "': "@ + detail)
    }
}

/// The first of the texts, from `from` on, that names no object of the
/// algorithm `a`.
pub open spec fn first_refused(a: GitHashAlgorithm, ss: Seq<Seq<char>>, from: int) -> Option<
    Seq<char>,
>
    decreases ss.len() - from,
{
    if from < 0 || from >= ss.len() {
        None
    } else if refused(a, ss[from]) {
        Some(ss[from])
    } else {
        first_refused(a, ss, from + 1)
    }
}

/// Whether the commit `sha` and the texts `ss` all name SHA-1 objects.
pub open spec fn sound_ids(sha: Seq<char>, ss: Seq<Seq<char>>) -> bool {
    sha_algorithm(sha) matches Some(a) && first_refused(a, ss, 0) is None
}

/// Whether `e` tells why they do not: the commit's id has the length of no
/// hash, or else the first text that names no object.
pub open spec fn tells_unsound_ids(e: CliError, sha: Seq<char>, ss: Seq<Seq<char>>) -> bool {
    match sha_algorithm(sha) {
        None => e.is_git_error(unclassified_sha(sha)),
        Some(a) => first_refused(a, ss, 0) matches Some(s) && tells_refusal(e, a, s),
    }
}

/// Texts in front move the first refused one no nearer.
pub proof fn lemma_refused_behind(
    a: GitHashAlgorithm,
    head: Seq<Seq<char>>,
    tail: Seq<Seq<char>>,
    k: int,
)
    requires
        0 <= k <= tail.len(),
    ensures
        first_refused(a, head + tail, head.len() + k) == first_refused(a, tail, k),
    decreases tail.len() - k,
{
    if k < tail.len() {
        assert((head + tail)[head.len() + k] == tail[k]);
        lemma_refused_behind(a, head, tail, k + 1);
    }
}

/// The bytes of the id that `git2::Oid::from_str` reads from a text, or the
/// words of its error. It accepts one to forty hexadecimal digits in either
/// case, takes them two to a byte and fills up with zeros; it refuses every
/// other text. Of the words of its error nothing is said.
#[verifier::external_body]
fn parse_oid(s: &str) -> (r: Result<Vec<u8>, String>)
    ensures
        match r {
            Ok(b) => readable_oid(s@) && b@ == read_oid(s@),
            Err(_) => !readable_oid(s@),
        },
{
    match git2::Oid::from_str(s) {
        Ok(oid) => Ok(oid.as_bytes().to_vec()),
        Err(e) => Err(e.to_string()),
    }
}

/// The object id that a commit id names.
pub fn git_object_id_for_sha(algorithm: GitHashAlgorithm, sha: &str) -> (r: Result<
    GitObjectId,
    CliError,
>)
    ensures
        match r {
            Ok(id) => readable_oid(sha@) && algorithm == GitHashAlgorithm::Sha1 && id.wf() && id@
                == (ObjectIdView { algorithm, bytes: read_oid(sha@) }),
            Err(e) => refused(algorithm, sha@) && tells_refusal(e, algorithm, sha@),
        },
{
    match parse_oid(sha) {
        Ok(bytes) => git_object_id(algorithm, bytes),
        Err(detail) => {
            let mut m: String = "invalid Git commit SHA '".to_owned();
            m.append(sha);
            m.append("': ");
            m.append(&detail);
            let e = git_error(m);
            assert(e.is_git_error("invalid Git commit SHA '"@ + sha@ + "': "@ + detail@));
            Err(e)
        },
    }
}

proof fn lemma_hex_places(bytes: Seq<u8>, i: int)
    requires
        0 <= i < bytes.len(),
    ensures
        hex_text(bytes).len() == 2 * bytes.len(),
        hex_text(bytes)[2 * i] == hex_digit(bytes[i] as int / 16),
        hex_text(bytes)[2 * i + 1] == hex_digit(bytes[i] as int % 16),
    decreases bytes.len(),
{
    let head = bytes.drop_last();
    if head.len() > 0 {
        lemma_hex_places(head, if i < head.len() {
            i
        } else {
            0
        });
    } else {
        assert(hex_text(head).len() == 0);
    }
}

proof fn lemma_char_value(n: int)
    requires
        0 <= n < 16,
    ensures
        char_value(hex_digit(n)) == Some(n),
{
}

/// An id can be told by its text: the hexadecimal text of twenty bytes can be
/// read, and stands for those bytes.
pub proof fn written_ids_are_read_back(bytes: Seq<u8>)
    requires
        bytes.len() == 20,
    ensures
        readable_oid(hex_text(bytes)),
        read_oid(hex_text(bytes)) == bytes,
{
    let s = hex_text(bytes);
    lemma_hex_places(bytes, 0);
    assert forall|p: int| 0 <= p < s.len() implies char_value(#[trigger] s[p]) is Some by {
        let i = p / 2;
        lemma_hex_places(bytes, i);
        lemma_char_value(bytes[i] as int / 16);
        lemma_char_value(bytes[i] as int % 16);
        assert(p == 2 * i || p == 2 * i + 1);
    }
    assert forall|i: int| 0 <= i < 20 implies read_oid(s)[i] == bytes[i] by {
        lemma_hex_places(bytes, i);
        lemma_char_value(bytes[i] as int / 16);
        lemma_char_value(bytes[i] as int % 16);
    }
    assert(read_oid(s) =~= bytes);
}

} // verus!
