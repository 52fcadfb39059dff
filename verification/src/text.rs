//! Text as this crate reads it: a string's UTF-8 bytes.
//!
//! Every scan in the crate walks bytes rather than chars, so an offset is
//! a byte offset and a multi-byte character can never be mistaken for a
//! delimiter: no continuation byte is ever `{`, `%`, `$`, `.` or `_`. The
//! specifications say the same thing, over `utf8(s@)`.

use vstd::prelude::*;
use vstd::string::StringSliceAdditionalSpecFns;
use vstd::utf8::{
    decode_utf8, encode_utf8, encode_utf8_decode_utf8, encode_utf8_valid_utf8, is_char_boundary,
    is_char_boundary_iff_not_is_continuation_byte, is_char_boundary_start_end_of_seq,
    is_continuation_byte, pop_first_scalar, valid_utf8, valid_utf8_split,
};

verus! {

/// The UTF-8 encoding of a character sequence.
pub open spec fn utf8(s: Seq<char>) -> Seq<u8> {
    encode_utf8(s)
}

/// An index a string may be cut at: an end, or a byte that starts a
/// character.
pub open spec fn boundary(bytes: Seq<u8>, i: int) -> bool {
    i == 0 || i == bytes.len() || (0 <= i < bytes.len() && !is_continuation_byte(bytes[i]))
}

/// Two texts are equal exactly when their encodings are.
pub proof fn lemma_utf8_injective(a: Seq<char>, b: Seq<char>)
    ensures
        utf8(a) == utf8(b) <==> a == b,
{
    encode_utf8_decode_utf8(a);
    encode_utf8_decode_utf8(b);
}

/// A cut at `boundary` is a cut at a character boundary.
pub proof fn lemma_boundary(bytes: Seq<u8>, i: int)
    requires
        valid_utf8(bytes),
        boundary(bytes, i),
    ensures
        is_char_boundary(bytes, i),
{
    if i == 0 {
    } else if i == bytes.len() {
        is_char_boundary_start_end_of_seq(bytes);
    } else {
        is_char_boundary_iff_not_is_continuation_byte(bytes, i);
    }
}

/// The byte after an ASCII byte starts a character, or is the end.
pub proof fn lemma_after_ascii(bytes: Seq<u8>, i: int)
    requires
        valid_utf8(bytes),
        0 <= i < bytes.len(),
        bytes[i] < 0x80,
    ensures
        boundary(bytes, i + 1),
{
    if i + 1 < bytes.len() {
        is_char_boundary_iff_not_is_continuation_byte(bytes, i);
        valid_utf8_split(bytes, i);
        let s = bytes.subrange(i, bytes.len() as int);
        assert(valid_utf8(s));
        let p = pop_first_scalar(s);
        assert(p =~= bytes.subrange(i + 1, bytes.len() as int));
        assert(valid_utf8(p));
        assert(p[0] == bytes[i + 1]);
    }
}

/// After a byte order mark, a character starts.
pub proof fn lemma_after_mark(bytes: Seq<u8>)
    requires
        valid_utf8(bytes),
        bytes.len() > 3,
        bytes[0] == 0xEFu8,
        bytes[1] == 0xBBu8,
        bytes[2] == 0xBFu8,
    ensures
        boundary(bytes, 3),
{
    assert(vstd::utf8::is_leading_byte_width_3(bytes[0]));
    assert(vstd::utf8::length_of_first_scalar(bytes) == 3);
    let p = pop_first_scalar(bytes);
    assert(valid_utf8(p));
    assert(p =~= bytes.subrange(3, bytes.len() as int));
    assert(p[0] == bytes[3]);
    is_char_boundary_iff_not_is_continuation_byte(p, 0);
}

/// Where a valid prefix ends, a character starts.
pub proof fn lemma_prefix_boundary(b: Seq<u8>, p: Seq<u8>)
    requires
        valid_utf8(b),
        valid_utf8(p),
        p.len() <= b.len(),
        b.subrange(0, p.len() as int) == p,
    ensures
        boundary(b, p.len() as int),
    decreases p.len(),
{
    if p.len() == 0 || p.len() == b.len() {
    } else {
        assert(p[0] == b[0]) by {
            assert(b.subrange(0, p.len() as int)[0] == b[0]);
        }
        let l = vstd::utf8::length_of_first_scalar(p);
        assert(l == vstd::utf8::length_of_first_scalar(b));
        assert(1 <= l <= p.len());
        let pb = pop_first_scalar(b);
        let pp = pop_first_scalar(p);
        assert(valid_utf8(pb));
        assert(valid_utf8(pp));
        assert(pb.subrange(0, pp.len() as int) =~= pp) by {
            assert forall|k: int| 0 <= k < pp.len() implies pb[k] == pp[k] by {
                assert(pb[k] == b[k + l]);
                assert(pp[k] == p[k + l]);
                assert(b.subrange(0, p.len() as int)[k + l] == b[k + l]);
            }
        }
        lemma_prefix_boundary(pb, pp);
        if pp.len() == 0 {
            assert(pb.len() > 0);
            assert(pb[0] == b[l]);
        } else {
            assert(pb[pp.len() as int] == b[p.len() as int]);
        }
    }
}

/// Encoding distributes over concatenation.
pub proof fn lemma_utf8_concat(a: Seq<char>, b: Seq<char>)
    ensures
        utf8(a + b) == utf8(a) + utf8(b),
    decreases a.len(),
{
    if a.len() == 0 {
        assert(a + b =~= b);
        assert(utf8(a) =~= Seq::<u8>::empty());
        assert(utf8(a) + utf8(b) =~= utf8(b));
    } else {
        lemma_utf8_concat(a.drop_first(), b);
        assert((a + b).drop_first() =~= a.drop_first() + b);
        assert((a + b)[0] == a[0]);
        assert(utf8(a + b) =~= utf8(a) + utf8(b));
    }
}

/// The encoding of one ASCII character is that character's byte.
pub proof fn lemma_utf8_ascii_char(c: char)
    requires
        c < '\u{80}',
    ensures
        utf8(seq![c]) == seq![c as u8],
{
    vstd::utf8::is_ascii_chars_encode_utf8(seq![c]);
    assert(utf8(seq![c]) =~= seq![c as u8]);
}

/// Two strings are the same text exactly when their bytes agree.
pub fn same(a: &str, b: &str) -> (r: bool)
    ensures
        r == (a@ == b@),
{
    let x = a.as_bytes();
    let y = b.as_bytes();
    proof {
        lemma_utf8_injective(a@, b@);
    }
    if x.len() != y.len() {
        return false;
    }
    let mut i: usize = 0;
    while i < x.len()
        invariant
            x@.len() == y@.len(),
            x@ == utf8(a@),
            y@ == utf8(b@),
            0 <= i <= x@.len(),
            forall|j: int| 0 <= j < i ==> x@[j] == y@[j],
        decreases x@.len() - i,
    {
        if x[i] != y[i] {
            return false;
        }
        i += 1;
    }
    assert(x@ =~= y@);
    true
}

/// Whether two byte sequences are equal.
pub fn equal_bytes(x: &[u8], y: &[u8]) -> (r: bool)
    ensures
        r == (x@ == y@),
{
    if x.len() != y.len() {
        return false;
    }
    let mut i: usize = 0;
    while i < x.len()
        invariant
            x@.len() == y@.len(),
            0 <= i <= x@.len(),
            forall|j: int| 0 <= j < i ==> x@[j] == y@[j],
        decreases x@.len() - i,
    {
        if x[i] != y[i] {
            return false;
        }
        i += 1;
    }
    assert(x@ =~= y@);
    true
}

/// Whether `bytes` begins with `prefix`.
pub fn starts_with(bytes: &[u8], prefix: &[u8]) -> (r: bool)
    ensures
        r == (prefix@.len() <= bytes@.len() && bytes@.subrange(0, prefix@.len() as int)
            == prefix@),
{
    if prefix.len() > bytes.len() {
        return false;
    }
    let mut i: usize = 0;
    while i < prefix.len()
        invariant
            prefix@.len() <= bytes@.len(),
            0 <= i <= prefix@.len(),
            forall|j: int| 0 <= j < i ==> bytes@[j] == prefix@[j],
        decreases prefix@.len() - i,
    {
        if bytes[i] != prefix[i] {
            assert(bytes@.subrange(0, prefix@.len() as int)[i as int] != prefix@[i as int]);
            return false;
        }
        i += 1;
    }
    assert(bytes@.subrange(0, prefix@.len() as int) =~= prefix@);
    true
}

/// Whether `bytes` ends with `suffix`.
pub fn ends_with(bytes: &[u8], suffix: &[u8]) -> (r: bool)
    ensures
        r == (suffix@.len() <= bytes@.len() && bytes@.subrange(
            bytes@.len() - suffix@.len(),
            bytes@.len() as int,
        ) == suffix@),
{
    if suffix.len() > bytes.len() {
        return false;
    }
    let start = bytes.len() - suffix.len();
    let total = bytes.len();
    let mut i: usize = 0;
    while i < suffix.len()
        invariant
            total == bytes@.len(),
            suffix@.len() <= bytes@.len(),
            start == bytes@.len() - suffix@.len(),
            0 <= i <= suffix@.len(),
            forall|j: int| 0 <= j < i ==> bytes@[start + j] == suffix@[j],
        decreases suffix@.len() - i,
    {
        assert(start + i < bytes@.len());
        if bytes[start + i] != suffix[i] {
            assert(bytes@.subrange(start as int, bytes@.len() as int)[i as int] != suffix@[i as int]);
            return false;
        }
        i += 1;
    }
    assert(bytes@.subrange(start as int, bytes@.len() as int) =~= suffix@);
    true
}

/// `needle` occurs in `hay` at `at`.
pub open spec fn occurs_at(hay: Seq<u8>, needle: Seq<u8>, at: int) -> bool {
    0 <= at && at + needle.len() <= hay.len() && hay.subrange(at, at + needle.len()) == needle
}

/// `needle` occurs somewhere in `hay`.
pub open spec fn occurs(hay: Seq<u8>, needle: Seq<u8>) -> bool {
    exists|at: int| occurs_at(hay, needle, at)
}

/// Whether `needle` occurs in `hay`, as `str::contains` answers it for two
/// strings.
pub fn contains(hay: &[u8], needle: &[u8]) -> (r: bool)
    ensures
        r == occurs(hay@, needle@),
{
    if needle.len() > hay.len() {
        assert forall|at: int| !occurs_at(hay@, needle@, at) by {}
        return false;
    }
    if needle.len() == 0 {
        assert(hay@.subrange(0, 0) =~= needle@);
        assert(occurs_at(hay@, needle@, 0));
        return true;
    }
    let last = hay.len() - needle.len();
    let total = hay.len();
    let mut at: usize = 0;
    while at <= last
        invariant
            total == hay@.len(),
            needle@.len() > 0,
            last == hay@.len() - needle@.len(),
            at <= last + 1,
            forall|k: int| 0 <= k < at ==> !occurs_at(hay@, needle@, k),
        decreases last + 1 - at,
    {
        let mut i: usize = 0;
        let mut matched = true;
        while i < needle.len()
            invariant
                total == hay@.len(),
                at <= last,
                last == hay@.len() - needle@.len(),
                0 <= i <= needle@.len(),
                matched ==> forall|j: int| 0 <= j < i ==> hay@[at + j] == needle@[j],
                !matched ==> !occurs_at(hay@, needle@, at as int),
            decreases needle@.len() - i,
        {
            assert(at + i < hay@.len());
            if hay[at + i] != needle[i] {
                assert(hay@.subrange(at as int, at + needle@.len())[i as int] != needle@[i as int]);
                matched = false;
            }
            i += 1;
        }
        if matched {
            assert(hay@.subrange(at as int, at + needle@.len()) =~= needle@);
            assert(occurs_at(hay@, needle@, at as int));
            return true;
        }
        at += 1;
    }
    assert forall|k: int| !occurs_at(hay@, needle@, k) by {
        if 0 <= k && k + needle@.len() <= hay@.len() {
            assert(k <= last);
        }
    }
    false
}

/// The part of `s` between two byte offsets that fall on character
/// boundaries.
pub fn substring(s: &str, from: usize, to: usize) -> (r: &str)
    requires
        from <= to <= utf8(s@).len(),
        boundary(utf8(s@), from as int),
        boundary(utf8(s@), to as int),
    ensures
        utf8(r@) == utf8(s@).subrange(from as int, to as int),
{
    let ghost bytes = utf8(s@);
    proof {
        encode_utf8_valid_utf8(s@);
        lemma_boundary(bytes, to as int);
    }
    let (head, _) = s.split_at(to);
    let ghost front = utf8(head@);
    proof {
        assert(front =~= bytes.subrange(0, to as int));
        encode_utf8_valid_utf8(head@);
        if from > 0 && from < to {
            assert(front[from as int] == bytes[from as int]);
        }
        assert(boundary(front, from as int));
        lemma_boundary(front, from as int);
    }
    let (_, middle) = head.split_at(from);
    proof {
        assert(utf8(middle@) =~= bytes.subrange(from as int, to as int));
    }
    middle
}

/// `String::push`: the text with one more character at its end.
#[verifier::external_body]
pub fn push_char(s: &mut String, c: char)
    ensures
        final(s)@ == old(s)@.push(c),
{
    s.push(c);
}

/// Whether every character of `s` is Unicode whitespace, which is what
/// `str::trim` removes.
pub open spec fn is_white_space(c: char) -> bool {
    ('\u{9}' <= c <= '\u{d}') || c == ' ' || c == '\u{85}' || c == '\u{a0}' || c == '\u{1680}'
        || ('\u{2000}' <= c <= '\u{200a}') || c == '\u{2028}' || c == '\u{2029}' || c
        == '\u{202f}' || c == '\u{205f}' || c == '\u{3000}'
}

/// Nothing is left once whitespace is trimmed off.
pub open spec fn blank(s: Seq<char>) -> bool {
    forall|i: int| 0 <= i < s.len() ==> is_white_space(#[trigger] s[i])
}

/// Whether the text is empty or only whitespace: nothing is left once it
/// is trimmed.
pub fn is_blank(s: &str) -> (r: bool)
    ensures
        r == blank(s@),
{
    let t = trim(s);
    proof {
        lemma_trimmed_blank(s@);
    }
    t.is_empty()
}

proof fn lemma_white_from(s: Seq<char>, i: int)
    requires
        0 <= i <= s.len(),
    ensures
        i <= white_from(s, i) <= s.len(),
        forall|j: int| i <= j < white_from(s, i) ==> is_white_space(#[trigger] s[j]),
        white_from(s, i) < s.len() ==> !is_white_space(s[white_from(s, i)]),
    decreases s.len() - i,
{
    if i < s.len() && is_white_space(s[i]) {
        lemma_white_from(s, i + 1);
    }
}

proof fn lemma_white_back(s: Seq<char>, n: int)
    requires
        0 <= n <= s.len(),
    ensures
        0 <= white_back(s, n) <= n,
        forall|j: int| white_back(s, n) <= j < n ==> is_white_space(#[trigger] s[j]),
    decreases n,
{
    if n > 0 && is_white_space(s[n - 1]) {
        lemma_white_back(s, n - 1);
    }
}

/// A text trims to nothing exactly when it is only whitespace.
proof fn lemma_trimmed_blank(s: Seq<char>)
    ensures
        (trimmed(s).len() == 0) == blank(s),
{
    lemma_white_from(s, 0);
    lemma_white_back(s, s.len() as int);
    let from = white_from(s, 0);
    let to = white_back(s, s.len() as int);
    if !blank(s) {
        let k = choose|k: int| 0 <= k < s.len() && !is_white_space(s[k]);
        assert(from <= k);
        assert(k < to);
    }
}

/// The text of a character sequence, as a new string.
pub fn owned(s: &str) -> (r: String)
    ensures
        r@ == s@,
{
    String::from_str(s)
}

/// `a` followed by `b`, as a new string.
pub fn joined(a: &str, b: &str) -> (r: String)
    ensures
        r@ == a@ + b@,
{
    String::from_str(a).concat(b)
}

/// The decimal spelling of a number.
pub open spec fn decimal(n: nat) -> Seq<char>
    decreases n,
{
    if n < 10 {
        seq![digit(n)]
    } else {
        decimal(n / 10).push(digit(n % 10))
    }
}

/// One decimal digit.
pub open spec fn digit(n: nat) -> char {
    if n == 0 {
        '0'
    } else if n == 1 {
        '1'
    } else if n == 2 {
        '2'
    } else if n == 3 {
        '3'
    } else if n == 4 {
        '4'
    } else if n == 5 {
        '5'
    } else if n == 6 {
        '6'
    } else if n == 7 {
        '7'
    } else if n == 8 {
        '8'
    } else {
        '9'
    }
}

fn digit_char(n: u64) -> (c: char)
    requires
        n < 10,
    ensures
        c == digit(n as nat),
{
    if n == 0 {
        '0'
    } else if n == 1 {
        '1'
    } else if n == 2 {
        '2'
    } else if n == 3 {
        '3'
    } else if n == 4 {
        '4'
    } else if n == 5 {
        '5'
    } else if n == 6 {
        '6'
    } else if n == 7 {
        '7'
    } else if n == 8 {
        '8'
    } else {
        '9'
    }
}

/// A number written out in decimal, for a message.
pub fn decimal_text(n: u64) -> (r: String)
    ensures
        r@ == decimal(n as nat),
    decreases n,
{
    if n < 10 {
        let mut r = String::new();
        push_char(&mut r, digit_char(n));
        assert(r@ =~= seq![digit(n as nat)]);
        r
    } else {
        let mut r = decimal_text(n / 10);
        push_char(&mut r, digit_char(n % 10));
        r
    }
}

/// The order `str` compares in: byte by byte, a proper prefix first.
pub open spec fn byte_less(a: Seq<u8>, b: Seq<u8>) -> bool
    decreases a.len(),
{
    if a.len() == 0 {
        b.len() > 0
    } else if b.len() == 0 {
        false
    } else if a[0] != b[0] {
        a[0] < b[0]
    } else {
        byte_less(a.drop_first(), b.drop_first())
    }
}

pub proof fn lemma_byte_less_irreflexive(a: Seq<u8>)
    ensures
        !byte_less(a, a),
    decreases a.len(),
{
    if a.len() > 0 {
        lemma_byte_less_irreflexive(a.drop_first());
    }
}

pub proof fn lemma_byte_less_transitive(a: Seq<u8>, b: Seq<u8>, c: Seq<u8>)
    requires
        byte_less(a, b),
        byte_less(b, c),
    ensures
        byte_less(a, c),
    decreases a.len(),
{
    if a.len() > 0 && b.len() > 0 && c.len() > 0 && a[0] == b[0] && b[0] == c[0] {
        lemma_byte_less_transitive(a.drop_first(), b.drop_first(), c.drop_first());
    }
}

/// Two different byte strings are ordered one way or the other, and only
/// one.
pub proof fn lemma_byte_less_total(a: Seq<u8>, b: Seq<u8>)
    ensures
        a != b ==> (byte_less(a, b) || byte_less(b, a)),
        !(byte_less(a, b) && byte_less(b, a)),
    decreases a.len(),
{
    if a.len() > 0 && b.len() > 0 && a[0] == b[0] {
        lemma_byte_less_total(a.drop_first(), b.drop_first());
        if a != b {
            assert(a.drop_first() != b.drop_first()) by {
                if a.drop_first() == b.drop_first() {
                    assert(a =~= seq![a[0]] + a.drop_first());
                    assert(b =~= seq![b[0]] + b.drop_first());
                }
            }
        }
    } else if a.len() == 0 && b.len() == 0 {
        assert(a =~= b);
    }
}

/// Whether `a` sorts before `b` in byte order.
pub fn precedes(a: &[u8], b: &[u8]) -> (r: bool)
    ensures
        r == byte_less(a@, b@),
{
    let mut i: usize = 0;
    assert(a@.subrange(0, a@.len() as int) =~= a@);
    assert(b@.subrange(0, b@.len() as int) =~= b@);
    while i < a.len() && i < b.len()
        invariant
            0 <= i <= a@.len(),
            i <= b@.len(),
            byte_less(a@, b@) == byte_less(
                a@.subrange(i as int, a@.len() as int),
                b@.subrange(i as int, b@.len() as int),
            ),
        decreases a@.len() - i,
    {
        let ghost x = a@.subrange(i as int, a@.len() as int);
        let ghost y = b@.subrange(i as int, b@.len() as int);
        assert(x[0] == a@[i as int] && y[0] == b@[i as int]);
        if a[i] != b[i] {
            return a[i] < b[i];
        }
        assert(x.drop_first() =~= a@.subrange(i + 1, a@.len() as int));
        assert(y.drop_first() =~= b@.subrange(i + 1, b@.len() as int));
        i += 1;
    }
    i == a.len() && i < b.len()
}

/// The texts of a list of strings.
pub open spec fn texts(v: Seq<String>) -> Seq<Seq<char>> {
    v.map_values(|s: String| s@)
}

/// Parts with `sep` between each two, as `join` writes them.
pub open spec fn joined_with(parts: Seq<Seq<char>>, sep: Seq<char>) -> Seq<char>
    decreases parts.len(),
{
    if parts.len() == 0 {
        seq![]
    } else if parts.len() == 1 {
        parts[0]
    } else {
        joined_with(parts.drop_last(), sep) + sep + parts.last()
    }
}

/// `parts` joined by `sep`.
pub fn join(parts: &Vec<String>, sep: &str) -> (r: String)
    ensures
        r@ == joined_with(texts(parts@), sep@),
{
    let mut out = String::new();
    let mut i: usize = 0;
    while i < parts.len()
        invariant
            0 <= i <= parts@.len(),
            out@ == joined_with(texts(parts@).subrange(0, i as int), sep@),
        decreases parts@.len() - i,
    {
        let ghost before = out@;
        if i > 0 {
            out.append(sep);
        }
        out.append(parts[i].as_str());
        proof {
            let sub = texts(parts@).subrange(0, i + 1);
            assert(sub.drop_last() =~= texts(parts@).subrange(0, i as int));
            assert(sub.last() == parts@[i as int]@);
            if i == 0 {
                assert(before =~= Seq::<char>::empty());
                assert(out@ =~= sub[0]);
            } else {
                assert(out@ =~= before + sep@ + sub.last());
            }
        }
        i += 1;
    }
    assert(texts(parts@).subrange(0, parts@.len() as int) =~= texts(parts@));
    out
}

/// Where the whitespace that starts at `i` ends.
pub open spec fn white_from(s: Seq<char>, i: int) -> int
    decreases s.len() - i,
{
    if 0 <= i < s.len() && is_white_space(s[i]) {
        white_from(s, i + 1)
    } else {
        i
    }
}

/// Where `s[..n]` ends once trailing whitespace is taken off.
pub open spec fn white_back(s: Seq<char>, n: int) -> int
    decreases n,
{
    if 0 < n <= s.len() && is_white_space(s[n - 1]) {
        white_back(s, n - 1)
    } else {
        n
    }
}

/// `s` without its trailing whitespace.
pub open spec fn trimmed_end(s: Seq<char>) -> Seq<char> {
    s.subrange(0, white_back(s, s.len() as int))
}

/// `s` without its leading or trailing whitespace.
pub open spec fn trimmed(s: Seq<char>) -> Seq<char> {
    let from = white_from(s, 0);
    let to = white_back(s, s.len() as int);
    if from >= to {
        Seq::empty()
    } else {
        s.subrange(from, to)
    }
}

/// `str::trim_end`: the text without trailing whitespace, as the Unicode
/// `White_Space` property defines it.
#[verifier::external_body]
pub fn trim_end(s: &str) -> (r: &str)
    ensures
        r@ == trimmed_end(s@),
{
    s.trim_end()
}

/// `str::trim`: the text without leading or trailing whitespace, as the
/// Unicode `White_Space` property defines it.
#[verifier::external_body]
pub fn trim(s: &str) -> (r: &str)
    ensures
        r@ == trimmed(s@),
{
    s.trim()
}

/// The pieces of `s` from `i` on, between occurrences of `c`, the
/// current one having started at `start`.
pub open spec fn pieces_from(s: Seq<char>, c: char, i: int, start: int, acc: Seq<Seq<char>>) -> Seq<Seq<char>>
    decreases s.len() - i,
{
    if i < 0 || i >= s.len() {
        acc.push(s.subrange(start, s.len() as int))
    } else if s[i] == c {
        pieces_from(s, c, i + 1, i + 1, acc.push(s.subrange(start, i)))
    } else {
        pieces_from(s, c, i + 1, start, acc)
    }
}

/// The pieces of `s` between occurrences of `c`: one more than there are
/// occurrences, each possibly empty.
pub open spec fn split_pieces(s: Seq<char>, c: char) -> Seq<Seq<char>> {
    pieces_from(s, c, 0, 0, seq![])
}

/// `str::split` on a character, collected.
#[verifier::external_body]
pub fn split_on(s: &str, c: char) -> (r: Vec<&str>)
    ensures
        r@.map_values(|p: &str| p@) == split_pieces(s@, c),
{
    s.split(c).collect()
}

/// The index of the first `c` in `s` at or after `i`, or the end.
pub open spec fn first_char(s: Seq<char>, c: char, i: int) -> int
    decreases s.len() - i,
{
    if i < 0 || i >= s.len() || s[i] == c {
        i
    } else {
        first_char(s, c, i + 1)
    }
}

pub proof fn lemma_first_char(s: Seq<char>, c: char, i: int)
    requires
        0 <= i <= s.len(),
    ensures
        i <= first_char(s, c, i) <= s.len(),
        first_char(s, c, i) < s.len() ==> s[first_char(s, c, i)] == c,
    decreases s.len() - i,
{
    if i < s.len() && s[i] != c {
        lemma_first_char(s, c, i + 1);
    }
}

/// `s` cut at its first `c`, which neither side keeps.
pub open spec fn cut_once(s: Seq<char>, c: char) -> Option<(Seq<char>, Seq<char>)> {
    let k = first_char(s, c, 0);
    if k >= s.len() {
        None
    } else {
        Some((s.subrange(0, k), s.subrange(k + 1, s.len() as int)))
    }
}

/// `str::split_once` on a character.
#[verifier::external_body]
pub fn split_once(s: &str, c: char) -> (r: Option<(&str, &str)>)
    ensures
        match cut_once(s@, c) {
            Some((a, b)) => r matches Some((x, y)) && x@ == a && y@ == b,
            None => r is None,
        },
{
    s.split_once(c)
}

/// The index of the last `c` in `s[..n]`, or -1.
pub open spec fn last_char(s: Seq<char>, c: char, n: int) -> int
    decreases n,
{
    if n <= 0 || n > s.len() {
        -1
    } else if s[n - 1] == c {
        n - 1
    } else {
        last_char(s, c, n - 1)
    }
}

/// `s` cut at its last `c`, which neither side keeps.
pub open spec fn cut_last(s: Seq<char>, c: char) -> Option<(Seq<char>, Seq<char>)> {
    let k = last_char(s, c, s.len() as int);
    if k < 0 {
        None
    } else {
        Some((s.subrange(0, k), s.subrange(k + 1, s.len() as int)))
    }
}

/// `str::rsplit_once` on a character.
#[verifier::external_body]
pub fn rsplit_once(s: &str, c: char) -> (r: Option<(&str, &str)>)
    ensures
        match cut_last(s@, c) {
            Some((a, b)) => r matches Some((x, y)) && x@ == a && y@ == b,
            None => r is None,
        },
{
    s.rsplit_once(c)
}

/// Strictly ascending in byte order, which is how `str` compares.
pub open spec fn ascending(s: Seq<Seq<char>>) -> bool {
    forall|i: int, j: int| 0 <= i < j < s.len() ==> byte_less(utf8(#[trigger] s[i]), utf8(#[trigger] s[j]))
}

/// A set has one ascending spelling.
pub proof fn lemma_ascending_unique(a: Seq<Seq<char>>, b: Seq<Seq<char>>)
    requires
        ascending(a),
        ascending(b),
        a.to_set() == b.to_set(),
    ensures
        a == b,
    decreases a.len(),
{
    if a.len() == 0 {
        if b.len() > 0 {
            assert(a.to_set().contains(b[0]));
        }
        assert(a =~= b);
    } else if b.len() == 0 {
        assert(b.to_set().contains(a[0]));
    } else {
        assert(b.to_set().contains(a[0]));
        assert(a.to_set().contains(b[0]));
        if a[0] != b[0] {
            let k = choose|k: int| 0 <= k < b.len() && b[k] == a[0];
            let m = choose|m: int| 0 <= m < a.len() && a[m] == b[0];
            assert(k > 0);
            assert(m > 0);
            assert(byte_less(utf8(b[0]), utf8(b[k])));
            assert(byte_less(utf8(a[0]), utf8(a[m])));
            lemma_byte_less_total(utf8(a[0]), utf8(b[0]));
        }
        let ar = a.drop_first();
        let br = b.drop_first();
        assert(ascending(ar)) by {
            assert forall|i: int, j: int| 0 <= i < j < ar.len() implies byte_less(utf8(#[trigger] ar[i]), utf8(#[trigger] ar[j])) by {
                assert(ar[i] == a[i + 1] && ar[j] == a[j + 1]);
            }
        }
        assert(ascending(br)) by {
            assert forall|i: int, j: int| 0 <= i < j < br.len() implies byte_less(utf8(#[trigger] br[i]), utf8(#[trigger] br[j])) by {
                assert(br[i] == b[i + 1] && br[j] == b[j + 1]);
            }
        }
        assert(ar.to_set() =~= br.to_set()) by {
            assert forall|x: Seq<char>| ar.to_set().contains(x) implies br.to_set().contains(x) by {
                let i = choose|i: int| 0 <= i < ar.len() && ar[i] == x;
                assert(a[i + 1] == x);
                assert(byte_less(utf8(a[0]), utf8(x)));
                lemma_byte_less_irreflexive(utf8(x));
                assert(b.to_set().contains(x));
                let j = choose|j: int| 0 <= j < b.len() && b[j] == x;
                assert(j != 0);
                assert(br[j - 1] == x);
            }
            assert forall|x: Seq<char>| br.to_set().contains(x) implies ar.to_set().contains(x) by {
                let i = choose|i: int| 0 <= i < br.len() && br[i] == x;
                assert(b[i + 1] == x);
                assert(byte_less(utf8(b[0]), utf8(x)));
                lemma_byte_less_irreflexive(utf8(x));
                assert(a.to_set().contains(x));
                let j = choose|j: int| 0 <= j < a.len() && a[j] == x;
                assert(j != 0);
                assert(ar[j - 1] == x);
            }
        }
        lemma_ascending_unique(ar, br);
        assert(a =~= seq![a[0]] + ar);
        assert(b =~= seq![b[0]] + br);
    }
}


/// The distinct texts among `items`, in byte order.
pub fn sort_distinct(items: &Vec<String>) -> (r: Vec<String>)
    ensures
        ascending(texts(r@)),
        texts(r@).to_set() == texts(items@).to_set(),
{
    let ghost all = texts(items@);
    let mut out: Vec<String> = Vec::new();
    let mut i: usize = 0;
    while i < items.len()
        invariant
            0 <= i <= items@.len(),
            all == texts(items@),
            ascending(texts(out@)),
            texts(out@).to_set() == all.subrange(0, i as int).to_set(),
        decreases items@.len() - i,
    {
        let name = items[i].as_str();
        let ghost o = texts(out@);
        let mut p: usize = 0;
        while p < out.len() && precedes(out[p].as_str().as_bytes(), name.as_bytes())
            invariant
                0 <= p <= out@.len(),
                o == texts(out@),
                forall|q: int| 0 <= q < p ==> byte_less(utf8(#[trigger] o[q]), utf8(name@)),
            decreases out@.len() - p,
        {
            p += 1;
        }
        let present = p < out.len() && same(out[p].as_str(), name);
        proof {
            assert(all[i as int] == name@);
            assert(all.subrange(0, i + 1) =~= all.subrange(0, i as int).push(name@));
            all.subrange(0, i as int).lemma_push_to_set_commute(name@);
            assert(all.subrange(0, i + 1).to_set() =~= all.subrange(0, i as int).to_set().insert(name@));
        }
        if !present {
            let ghost before = texts(out@);
            out.insert(p, items[i].clone());
            proof {
                let after = texts(out@);
                assert(after =~= before.insert(p as int, name@));
                if p < before.len() {
                    lemma_byte_less_total(utf8(before[p as int]), utf8(name@));
                    lemma_utf8_injective(before[p as int], name@);
                }
                assert forall|x: int, y: int| 0 <= x < y < after.len() implies byte_less(utf8(#[trigger] after[x]), utf8(#[trigger] after[y])) by {
                    if y < p {
                        assert(after[x] == before[x] && after[y] == before[y]);
                    } else if y == p {
                        assert(after[x] == before[x]);
                    } else if x == p {
                        assert(after[y] == before[y - 1]);
                        if y - 1 > p {
                            lemma_byte_less_transitive(utf8(name@), utf8(before[p as int]), utf8(before[y - 1]));
                        }
                    } else if x < p {
                        assert(after[x] == before[x] && after[y] == before[y - 1]);
                    } else {
                        assert(after[x] == before[x - 1] && after[y] == before[y - 1]);
                    }
                }
                assert(after.to_set() =~= before.to_set().insert(name@)) by {
                    assert forall|z: Seq<char>| after.to_set().contains(z) implies before.to_set().insert(name@).contains(z) by {
                        let k = choose|k: int| 0 <= k < after.len() && after[k] == z;
                        if k < p {
                            assert(before[k] == z);
                        } else if k > p {
                            assert(before[k - 1] == z);
                        }
                    }
                    assert forall|z: Seq<char>| before.to_set().insert(name@).contains(z) implies after.to_set().contains(z) by {
                        if z == name@ {
                            assert(after[p as int] == z);
                        } else {
                            let k = choose|k: int| 0 <= k < before.len() && before[k] == z;
                            if k < p {
                                assert(after[k] == z);
                            } else {
                                assert(after[k + 1] == z);
                            }
                        }
                    }
                }
            }
        } else {
            proof {
                assert(o[p as int] == name@);
                assert(o.to_set().contains(name@));
                assert(o.to_set().insert(name@) =~= o.to_set());
            }
        }
        i += 1;
    }
    proof {
        assert(all.subrange(0, all.len() as int) =~= all);
    }
    out
}

/// The distinct texts among `items`, in byte order: the one ascending
/// spelling of their set.
pub open spec fn in_order(items: Seq<Seq<char>>) -> Seq<Seq<char>> {
    choose|s: Seq<Seq<char>>| ascending(s) && s.to_set() == items.to_set()
}

/// What `sort_distinct` returns is that spelling.
pub proof fn lemma_in_order(items: Seq<Seq<char>>, s: Seq<Seq<char>>)
    requires
        ascending(s),
        s.to_set() == items.to_set(),
    ensures
        in_order(items) == s,
{
    lemma_ascending_unique(in_order(items), s);
}

} // verus!

verus! {

/// Where `x` goes among `s[k..]`: at the first text that does not sort
/// before it.
pub open spec fn rank(s: Seq<Seq<char>>, x: Seq<char>, k: int) -> int
    decreases s.len() - k,
{
    if k < 0 || k >= s.len() || !byte_less(utf8(s[k]), utf8(x)) {
        k
    } else {
        rank(s, x, k + 1)
    }
}

proof fn lemma_rank(s: Seq<Seq<char>>, x: Seq<char>, k: int)
    requires
        0 <= k <= s.len(),
    ensures
        k <= rank(s, x, k) <= s.len(),
        forall|q: int| k <= q < rank(s, x, k) ==> byte_less(utf8(#[trigger] s[q]), utf8(x)),
        rank(s, x, k) < s.len() ==> !byte_less(utf8(s[rank(s, x, k)]), utf8(x)),
    decreases s.len() - k,
{
    if k < s.len() && byte_less(utf8(s[k]), utf8(x)) {
        lemma_rank(s, x, k + 1);
    }
}

/// Every finite collection of texts has an ascending spelling.
pub proof fn lemma_sorted_arrangement(items: Seq<Seq<char>>) -> (s: Seq<Seq<char>>)
    ensures
        ascending(s),
        s.to_set() == items.to_set(),
    decreases items.len(),
{
    if items.len() == 0 {
        let s: Seq<Seq<char>> = seq![];
        assert(s.to_set() =~= items.to_set());
        s
    } else {
        let x = items.last();
        let rest = items.drop_last();
        let before = lemma_sorted_arrangement(rest);
        assert(items =~= rest.push(x));
        rest.lemma_push_to_set_commute(x);
        if before.to_set().contains(x) {
            assert(items.to_set() =~= before.to_set());
            before
        } else {
            lemma_rank(before, x, 0);
            let p = rank(before, x, 0);
            let after = before.insert(p, x);
            if p < before.len() {
                lemma_byte_less_total(utf8(before[p]), utf8(x));
                lemma_utf8_injective(before[p], x);
                assert(before.to_set().contains(before[p]));
            }
            assert forall|a: int, b: int| 0 <= a < b < after.len() implies byte_less(
                utf8(#[trigger] after[a]),
                utf8(#[trigger] after[b]),
            ) by {
                if b < p {
                    assert(after[a] == before[a] && after[b] == before[b]);
                } else if b == p {
                    assert(after[a] == before[a]);
                } else if a == p {
                    assert(after[b] == before[b - 1]);
                    if b - 1 > p {
                        lemma_byte_less_transitive(utf8(x), utf8(before[p]), utf8(before[b - 1]));
                    }
                } else if a < p {
                    assert(after[a] == before[a] && after[b] == before[b - 1]);
                } else {
                    assert(after[a] == before[a - 1] && after[b] == before[b - 1]);
                }
            }
            assert(after.to_set() =~= before.to_set().insert(x)) by {
                assert forall|z: Seq<char>| after.to_set().contains(z) implies before.to_set().insert(x).contains(z) by {
                    let k = choose|k: int| 0 <= k < after.len() && after[k] == z;
                    if k < p {
                        assert(before[k] == z);
                    } else if k > p {
                        assert(before[k - 1] == z);
                    }
                }
                assert forall|z: Seq<char>| before.to_set().insert(x).contains(z) implies after.to_set().contains(z) by {
                    if z == x {
                        assert(after[p] == x);
                    } else {
                        let k = choose|k: int| 0 <= k < before.len() && before[k] == z;
                        if k < p {
                            assert(after[k] == z);
                        } else {
                            assert(after[k + 1] == z);
                        }
                    }
                }
            }
            after
        }
    }
}

} // verus!

verus! {

/// `p` occurs in `m`.
pub open spec fn mentions(m: Seq<char>, p: Seq<char>) -> bool {
    exists|i: int| 0 <= i && i + p.len() <= m.len() && #[trigger] m.subrange(i, i + p.len()) == p
}

/// What a text mentions, a longer text around it mentions too.
pub proof fn lemma_mentions_within(a: Seq<char>, b: Seq<char>, c: Seq<char>, p: Seq<char>)
    requires
        mentions(b, p),
    ensures
        mentions(a + b + c, p),
{
    let i = choose|i: int| 0 <= i && i + p.len() <= b.len() && #[trigger] b.subrange(i, i + p.len()) == p;
    let m = a + b + c;
    let j = a.len() + i;
    assert(m.subrange(j, j + p.len()) =~= b.subrange(i, i + p.len()));
    assert(mentions(m, p));
}

/// A listing mentions every item it lists.
pub proof fn lemma_joined_mentions(parts: Seq<Seq<char>>, sep: Seq<char>, k: int)
    requires
        0 <= k < parts.len(),
    ensures
        mentions(joined_with(parts, sep), parts[k]),
    decreases parts.len(),
{
    let p = parts[k];
    if parts.len() == 1 {
        let m = joined_with(parts, sep);
        let j: int = 0;
        assert(m.subrange(j, j + p.len()) =~= p);
        assert(mentions(m, p));
    } else if k == parts.len() - 1 {
        let front = joined_with(parts.drop_last(), sep) + sep;
        let m = front + p;
        assert(joined_with(parts, sep) == m);
        let j: int = front.len() as int;
        assert(m.subrange(j, j + p.len()) =~= p);
        assert(mentions(m, p));
    } else {
        lemma_joined_mentions(parts.drop_last(), sep, k);
        assert(parts.drop_last()[k] == p);
        lemma_mentions_within(Seq::empty(), joined_with(parts.drop_last(), sep), sep + parts.last(), p);
        assert(Seq::<char>::empty() + joined_with(parts.drop_last(), sep) + (sep + parts.last()) =~= joined_with(parts, sep));
    }
}

/// No dash in `s` is followed by another: `s` holds no `--`.
pub open spec fn no_double_dash(s: Seq<char>) -> bool {
    forall|i: int| 0 <= i < s.len() - 1 ==> !(#[trigger] s[i] == '-' && s[i + 1] == '-')
}

/// `s` holds no dash at all.
pub open spec fn dashless(s: Seq<char>) -> bool {
    forall|i: int| 0 <= i < s.len() ==> #[trigger] s[i] != '-'
}

/// A text mentions `--` exactly when two of its dashes stand side by side.
pub proof fn lemma_no_double_dash(s: Seq<char>)
    ensures
        no_double_dash(s) <==> !mentions(s, "--"@),
{
    reveal_strlit("--");
    if !no_double_dash(s) {
        let i = choose|i: int| 0 <= i < s.len() - 1 && (#[trigger] s[i] == '-' && s[i + 1] == '-');
        assert(s.subrange(i, i + 2) =~= "--"@);
        assert(s.subrange(i, i + "--"@.len()) == "--"@);
    }
    if mentions(s, "--"@) {
        let i = choose|i: int| 0 <= i && i + 2 <= s.len() && #[trigger] s.subrange(i, i + "--"@.len()) == "--"@;
        assert(s.subrange(i, i + 2)[0] == s[i]);
        assert(s.subrange(i, i + 2)[1] == s[i + 1]);
        assert(s[i] == '-' && s[i + 1] == '-');
    }
}

/// Two texts without `--` make none when one of them has no dash where
/// they meet.
pub proof fn lemma_no_double_dash_joined(a: Seq<char>, b: Seq<char>)
    requires
        no_double_dash(a),
        no_double_dash(b),
        a.len() == 0 || b.len() == 0 || a.last() != '-' || b[0] != '-',
    ensures
        no_double_dash(a + b),
{
    let m = a + b;
    assert forall|i: int| 0 <= i < m.len() - 1 implies !(#[trigger] m[i] == '-' && m[i + 1] == '-') by {
        if i + 1 < a.len() {
            assert(m[i] == a[i] && m[i + 1] == a[i + 1]);
        } else if i >= a.len() {
            assert(m[i] == b[i - a.len()] && m[i + 1] == b[i + 1 - a.len()]);
        } else {
            assert(m[i] == a.last() && m[i + 1] == b[0]);
        }
    }
}

/// A text without a dash holds no `--`.
pub proof fn lemma_dashless(s: Seq<char>)
    requires
        dashless(s),
    ensures
        no_double_dash(s),
{
    assert forall|i: int| 0 <= i < s.len() - 1 implies !(#[trigger] s[i] == '-' && s[i + 1] == '-') by {
        assert(s[i] != '-');
    }
}

/// A number written in decimal holds no dash.
pub proof fn lemma_decimal_dashless(n: nat)
    ensures
        dashless(decimal(n)),
    decreases n,
{
    if n >= 10 {
        lemma_decimal_dashless(n / 10);
        let d = decimal(n / 10);
        assert forall|i: int| 0 <= i < decimal(n).len() implies #[trigger] decimal(n)[i] != '-' by {
            if i < d.len() {
                assert(decimal(n)[i] == d[i]);
            }
        }
    }
}

/// Parts without `--`, joined by a separator without one that neither
/// starts nor ends with a dash, make a text without `--`.
pub proof fn lemma_joined_no_double_dash(parts: Seq<Seq<char>>, sep: Seq<char>)
    requires
        forall|k: int| 0 <= k < parts.len() ==> no_double_dash(#[trigger] parts[k]),
        no_double_dash(sep),
        sep.len() > 0,
        sep[0] != '-',
        sep.last() != '-',
    ensures
        no_double_dash(joined_with(parts, sep)),
    decreases parts.len(),
{
    if parts.len() == 1 {
        assert(no_double_dash(parts[0]));
    } else if parts.len() > 1 {
        let front = parts.drop_last();
        assert forall|k: int| 0 <= k < front.len() implies no_double_dash(#[trigger] front[k]) by {
            assert(front[k] == parts[k]);
        }
        lemma_joined_no_double_dash(front, sep);
        lemma_no_double_dash_joined(joined_with(front, sep), sep);
        assert(no_double_dash(parts.last()));
        assert((joined_with(front, sep) + sep).last() == sep.last());
        lemma_no_double_dash_joined(joined_with(front, sep) + sep, parts.last());
    }
}

} // verus!
