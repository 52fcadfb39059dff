//! Which locale a catalogue is for, read from its file name.
//!
//! ```text
//! locales/en.json                 locales/pt-BR.json
//! l10n/bundle.l10n.json           l10n/bundle.l10n.pt-br.json
//! src/i18n/package.nls.json       src/i18n/package.nls.zh-cn.json
//! messages/messages.en.json       messages/messages.es.json
//! arb/app_en.arb                  arb/app_pt_BR.arb
//! ```
//!
//! **The locale is whatever the file names in a set do not share.** The
//! segments every name has in common are the set's prefix, and what is
//! left is the locale — or nothing, which is the base catalogue three of
//! those conventions write without a tag.
//!
//! Reading each name on its own cannot work: `nls` in `package.nls.json`
//! is three letters and would pass for a language tag. Reading the set
//! together is what makes it decidable, and a leftover that is not shaped
//! like a tag is refused rather than guessed at.
//!
//! **Unless the identified library fixes the prefix**, which is what
//! `from_prefix` is for: with `package.nls` given rather than inferred,
//! one name is readable on its own.

use vstd::prelude::*;
use vstd::utf8::{encode_utf8_valid_utf8, valid_utf8};

use crate::text::{
    boundary, ends_with, lemma_after_ascii, lemma_prefix_boundary, lemma_utf8_ascii_char,
    lemma_utf8_concat, push_char,
    starts_with, substring, utf8,
};

verus! {

/// Which bytes separate the pieces of a name.
#[derive(Debug, Clone, Copy, PartialEq, Eq, Structural)]
pub enum Separators {
    /// `-`, between the subtags of a language tag.
    Dash,
    /// `.` and `_`, between the segments of a file name. Which of the two
    /// a project uses is a house style; `pt_BR.json` beside `zh-CN.json`
    /// is an ordinary sight.
    Segment,
}

pub open spec fn separates(kind: Separators, c: u8) -> bool {
    match kind {
        Separators::Dash => c == 0x2Du8,
        Separators::Segment => c == 0x2Eu8 || c == 0x5Fu8,
    }
}

/// The pieces of `b[..]` from `i` on, as byte ranges, the current one
/// having started at `start`.
pub open spec fn split_scan(
    b: Seq<u8>,
    kind: Separators,
    i: int,
    start: int,
    acc: Seq<(int, int)>,
) -> Seq<(int, int)>
    decreases b.len() - i,
{
    if i < 0 || i >= b.len() {
        acc.push((start, b.len() as int))
    } else if separates(kind, b[i]) {
        split_scan(b, kind, i + 1, i + 1, acc.push((start, i)))
    } else {
        split_scan(b, kind, i + 1, start, acc)
    }
}

/// The pieces of `b` between separators, as byte ranges. There is always
/// at least one, which is empty for an empty `b`.
pub open spec fn split_ranges(b: Seq<u8>, kind: Separators) -> Seq<(int, int)> {
    split_scan(b, kind, 0, 0, seq![])
}

pub open spec fn piece(b: Seq<u8>, r: (int, int)) -> Seq<u8> {
    b.subrange(r.0, r.1)
}

pub open spec fn pieces(b: Seq<u8>, kind: Separators) -> Seq<Seq<u8>> {
    split_ranges(b, kind).map_values(|r: (int, int)| piece(b, r))
}

/// A range that starts and ends at separators or at the ends of `b`.
pub open spec fn between_separators(b: Seq<u8>, kind: Separators, r: (int, int)) -> bool {
    &&& 0 <= r.0 <= r.1 <= b.len()
    &&& (r.0 == 0 || (r.0 >= 1 && separates(kind, b[r.0 - 1])))
    &&& (r.1 == b.len() || separates(kind, b[r.1]))
}

pub proof fn lemma_split_scan(
    b: Seq<u8>,
    kind: Separators,
    i: int,
    start: int,
    acc: Seq<(int, int)>,
)
    requires
        0 <= start <= i <= b.len(),
        start == 0 || separates(kind, b[start - 1]),
        forall|k: int| 0 <= k < acc.len() ==> between_separators(b, kind, #[trigger] acc[k]),
    ensures
        split_scan(b, kind, i, start, acc).len() >= acc.len() + 1,
        forall|k: int|
            0 <= k < split_scan(b, kind, i, start, acc).len() ==> between_separators(
                b,
                kind,
                #[trigger] split_scan(b, kind, i, start, acc)[k],
            ),
        forall|k: int| 0 <= k < acc.len() ==> split_scan(b, kind, i, start, acc)[k] == acc[k],
    decreases b.len() - i,
{
    if i >= b.len() {
    } else if separates(kind, b[i]) {
        let next = acc.push((start, i));
        assert forall|k: int| 0 <= k < acc.len() implies next[k] == acc[k] by {}
        lemma_split_scan(b, kind, i + 1, i + 1, next);
    } else {
        lemma_split_scan(b, kind, i + 1, start, acc);
    }
}

pub proof fn lemma_split_ranges(b: Seq<u8>, kind: Separators)
    ensures
        split_ranges(b, kind).len() >= 1,
        forall|k: int|
            0 <= k < split_ranges(b, kind).len() ==> between_separators(
                b,
                kind,
                #[trigger] split_ranges(b, kind)[k],
            ),
{
    lemma_split_scan(b, kind, 0, 0, seq![]);
}

fn separator(kind: Separators, c: u8) -> (r: bool)
    ensures
        r == separates(kind, c),
{
    match kind {
        Separators::Dash => c == 0x2D,
        Separators::Segment => c == 0x2E || c == 0x5F,
    }
}

/// The pieces of `bytes[..end]` between separators, as byte ranges.
pub fn split(bytes: &[u8], end: usize, kind: Separators) -> (r: Vec<(usize, usize)>)
    requires
        end <= bytes@.len(),
    ensures
        r@.map_values(|x: (usize, usize)| (x.0 as int, x.1 as int)) == split_ranges(
            bytes@.subrange(0, end as int),
            kind,
        ),
{
    let ghost b = bytes@.subrange(0, end as int);
    let mut r: Vec<(usize, usize)> = Vec::new();
    assert(r@.map_values(|x: (usize, usize)| (x.0 as int, x.1 as int)) =~= Seq::<(int, int)>::empty());
    let mut start: usize = 0;
    let mut i: usize = 0;
    while i < end
        invariant
            start <= i <= end <= bytes@.len(),
            b == bytes@.subrange(0, end as int),
            split_ranges(b, kind) == split_scan(
                b,
                kind,
                i as int,
                start as int,
                r@.map_values(|x: (usize, usize)| (x.0 as int, x.1 as int)),
            ),
        decreases end - i,
    {
        if separator(kind, bytes[i]) {
            let ghost before = r@.map_values(|x: (usize, usize)| (x.0 as int, x.1 as int));
            r.push((start, i));
            assert(r@.map_values(|x: (usize, usize)| (x.0 as int, x.1 as int)) =~= before.push(
                (start as int, i as int),
            ));
            start = i + 1;
        }
        i += 1;
    }
    let ghost before = r@.map_values(|x: (usize, usize)| (x.0 as int, x.1 as int));
    r.push((start, end));
    assert(r@.map_values(|x: (usize, usize)| (x.0 as int, x.1 as int)) =~= before.push(
        (start as int, end as int),
    ));
    r
}

// ---------------------------------------------------------------------
// Language tags
// ---------------------------------------------------------------------

pub open spec fn is_alpha(c: u8) -> bool {
    (0x41 <= c <= 0x5A) || (0x61 <= c <= 0x7A)
}

pub open spec fn is_digit(c: u8) -> bool {
    0x30 <= c <= 0x39
}

pub open spec fn lower(c: u8) -> u8 {
    if 0x41 <= c <= 0x5A {
        (c + 32) as u8
    } else {
        c
    }
}

pub open spec fn upper(c: u8) -> u8 {
    if 0x61 <= c <= 0x7A {
        (c - 32) as u8
    } else {
        c
    }
}

pub open spec fn all_alpha(p: Seq<u8>) -> bool {
    forall|k: int| 0 <= k < p.len() ==> is_alpha(#[trigger] p[k])
}

pub open spec fn all_digit(p: Seq<u8>) -> bool {
    forall|k: int| 0 <= k < p.len() ==> is_digit(#[trigger] p[k])
}

pub open spec fn spec_is_script(p: Seq<u8>) -> bool {
    p.len() == 4 && all_alpha(p)
}

pub open spec fn spec_is_region(p: Seq<u8>) -> bool {
    (p.len() == 2 && all_alpha(p)) || (p.len() == 3 && all_digit(p))
}

pub open spec fn is_language(p: Seq<u8>) -> bool {
    2 <= p.len() <= 3 && all_alpha(p)
}

pub open spec fn lowered(p: Seq<u8>) -> Seq<u8> {
    p.map_values(|c: u8| lower(c))
}

pub open spec fn uppered(p: Seq<u8>) -> Seq<u8> {
    p.map_values(|c: u8| upper(c))
}

/// `Hans`: the first letter upper case, the rest lower.
pub open spec fn titled(p: Seq<u8>) -> Seq<u8> {
    seq![upper(p[0])] + lowered(p.subrange(1, p.len() as int))
}

/// The canonical spelling of a language tag — `language[-Script][-REGION]`
/// — or `None` when the text is not shaped like one.
///
/// Only the subtags a catalogue file name ever carries. No variants, no
/// extensions: a name carrying those is a question this refuses rather
/// than answers.
pub open spec fn spec_canonical(t: Seq<u8>) -> Option<Seq<u8>> {
    let parts = pieces(t, Separators::Dash);
    let language = parts[0];
    let script = parts.len() > 1 && spec_is_script(parts[1]);
    let at = if script {
        2int
    } else {
        1int
    };
    let region = parts.len() > at && spec_is_region(parts[at]);
    let end = if region {
        at + 1
    } else {
        at
    };
    if !is_language(language) || parts.len() != end {
        None
    } else {
        Some(
            lowered(language) + (if script {
                seq![0x2Du8] + titled(parts[1])
            } else {
                seq![]
            }) + (if region {
                seq![0x2Du8] + uppered(parts[at])
            } else {
                seq![]
            }),
        )
    }
}

/// The characters of an ASCII byte sequence.
pub open spec fn chars_of(b: Seq<u8>) -> Seq<char> {
    b.map_values(|c: u8| c as char)
}

/// What `canonicalise` answers for a tag whose bytes are `t`.
pub open spec fn canonical_text(t: Seq<u8>) -> Option<Seq<char>> {
    match spec_canonical(t) {
        Some(c) => Some(chars_of(c)),
        None => None,
    }
}

fn push_bytes(out: &mut String, bytes: &[u8], start: usize, end: usize, how: u8)
    requires
        start <= end <= bytes@.len(),
    ensures
        final(out)@ == old(out)@ + chars_of(
            if how == 0 {
                lowered(bytes@.subrange(start as int, end as int))
            } else {
                uppered(bytes@.subrange(start as int, end as int))
            },
        ),
{
    let mut i = start;
    while i < end
        invariant
            start <= i <= end <= bytes@.len(),
            out@ == old(out)@ + chars_of(
                if how == 0 {
                    lowered(bytes@.subrange(start as int, i as int))
                } else {
                    uppered(bytes@.subrange(start as int, i as int))
                },
            ),
        decreases end - i,
    {
        let c = bytes[i];
        let mapped: u8 = if how == 0 {
            if 0x41 <= c && c <= 0x5A {
                c + 32
            } else {
                c
            }
        } else {
            if 0x61 <= c && c <= 0x7A {
                c - 32
            } else {
                c
            }
        };
        push_char(out, mapped as char);
        proof {
            let sub = bytes@.subrange(start as int, i + 1);
            assert(sub.drop_last() =~= bytes@.subrange(start as int, i as int));
            if how == 0 {
                assert(lowered(sub) =~= lowered(sub.drop_last()).push(lower(c)));
            } else {
                assert(uppered(sub) =~= uppered(sub.drop_last()).push(upper(c)));
            }
        }
        assert(out@ =~= old(out)@ + chars_of(
            if how == 0 {
                lowered(bytes@.subrange(start as int, (i + 1) as int))
            } else {
                uppered(bytes@.subrange(start as int, (i + 1) as int))
            },
        ));
        i += 1;
    }
}

fn all_of(bytes: &[u8], start: usize, end: usize, digits: bool) -> (r: bool)
    requires
        start <= end <= bytes@.len(),
    ensures
        r == if digits {
            all_digit(bytes@.subrange(start as int, end as int))
        } else {
            all_alpha(bytes@.subrange(start as int, end as int))
        },
{
    let mut i = start;
    while i < end
        invariant
            start <= i <= end <= bytes@.len(),
            forall|k: int|
                start <= k < i ==> if digits {
                    is_digit(#[trigger] bytes@[k])
                } else {
                    is_alpha(bytes@[k])
                },
        decreases end - i,
    {
        let c = bytes[i];
        let ok = if digits {
            0x30 <= c && c <= 0x39
        } else {
            (0x41 <= c && c <= 0x5A) || (0x61 <= c && c <= 0x7A)
        };
        if !ok {
            assert(bytes@.subrange(start as int, end as int)[i - start] == c);
            return false;
        }
        i += 1;
    }
    proof {
        let sub = bytes@.subrange(start as int, end as int);
        assert forall|k: int| 0 <= k < sub.len() implies if digits {
            is_digit(#[trigger] sub[k])
        } else {
            is_alpha(sub[k])
        } by {
            assert(sub[k] == bytes@[start + k]);
        }
    }
    true
}

pub fn is_script(bytes: &[u8], r: (usize, usize)) -> (b: bool)
    requires
        r.0 <= r.1 <= bytes@.len(),
    ensures
        b == spec_is_script(bytes@.subrange(r.0 as int, r.1 as int)),
{
    r.1 - r.0 == 4 && all_of(bytes, r.0, r.1, false)
}

pub fn is_region(bytes: &[u8], r: (usize, usize)) -> (b: bool)
    requires
        r.0 <= r.1 <= bytes@.len(),
    ensures
        b == spec_is_region(bytes@.subrange(r.0 as int, r.1 as int)),
{
    (r.1 - r.0 == 2 && all_of(bytes, r.0, r.1, false)) || (r.1 - r.0 == 3 && all_of(
        bytes,
        r.0,
        r.1,
        true,
    ))
}

/// The canonical spelling of a language tag held as bytes.
#[verifier::rlimit(40)]
pub fn canonical_bytes(bytes: &[u8]) -> (r: Option<String>)
    ensures
        r matches Some(s) ==> canonical_text(bytes@) == Some(s@),
        r is None ==> canonical_text(bytes@) is None,
{
    let parts = split(bytes, bytes.len(), Separators::Dash);
    let ghost ranges = split_ranges(bytes@, Separators::Dash);
    let ghost ps = pieces(bytes@, Separators::Dash);
    proof {
        assert(bytes@.subrange(0, bytes@.len() as int) =~= bytes@);
        lemma_split_ranges(bytes@, Separators::Dash);
        assert(parts@.len() == ranges.len());
        assert forall|k: int| 0 <= k < parts@.len() implies (#[trigger] parts@[k].0 as int, parts@[k].1 as int) == ranges[k] by {
            assert(parts@.map_values(|x: (usize, usize)| (x.0 as int, x.1 as int))[k] == ranges[k]);
        }
        assert forall|k: int| 0 <= k < parts@.len() implies #[trigger] ps[k] == bytes@.subrange(parts@[k].0 as int, parts@[k].1 as int) by {
            assert(between_separators(bytes@, Separators::Dash, ranges[k]));
        }
        assert(between_separators(bytes@, Separators::Dash, ranges[0]));
    }
    let language = parts[0];
    if !(2 <= language.1 - language.0 && language.1 - language.0 <= 3 && all_of(bytes, language.0, language.1, false)) {
        return None;
    }
    let script = parts.len() > 1 && is_script(bytes, parts[1]);
    let at: usize = if script {
        2
    } else {
        1
    };
    let region = parts.len() > at && is_region(bytes, parts[at]);
    let end = if region {
        at + 1
    } else {
        at
    };
    if parts.len() != end {
        return None;
    }
    let mut canonical = String::new();
    push_bytes(&mut canonical, bytes, language.0, language.1, 0);
    if script {
        let s = parts[1];
        proof {
            assert(between_separators(bytes@, Separators::Dash, ranges[1]));
        }
        push_char(&mut canonical, '-');
        push_bytes(&mut canonical, bytes, s.0, s.0 + 1, 1);
        push_bytes(&mut canonical, bytes, s.0 + 1, s.1, 0);
    }
    if region {
        let g = parts[at];
        proof {
            assert(between_separators(bytes@, Separators::Dash, ranges[at as int]));
        }
        push_char(&mut canonical, '-');
        push_bytes(&mut canonical, bytes, g.0, g.1, 1);
    }
    proof {
        let lang = ps[0];
        let expected = spec_canonical(bytes@)->0;
        let script_part: Seq<u8> = if script {
            seq![0x2Du8] + titled(ps[1])
        } else {
            seq![]
        };
        let region_part: Seq<u8> = if region {
            seq![0x2Du8] + uppered(ps[at as int])
        } else {
            seq![]
        };
        assert(expected == lowered(lang) + script_part + region_part);
        if script {
            let p1 = ps[1];
            assert(titled(p1) =~= uppered(p1.subrange(0, 1)) + lowered(p1.subrange(1, p1.len() as int)));
            assert(p1.subrange(0, 1) =~= bytes@.subrange(parts@[1].0 as int, parts@[1].0 + 1));
            assert(p1.subrange(1, p1.len() as int) =~= bytes@.subrange(parts@[1].0 + 1, parts@[1].1 as int));
        }
        assert(canonical@ =~= chars_of(expected));
    }
    Some(canonical)
}

/// The canonical spelling of a language tag, or `None` if the text is not
/// shaped like one.
pub fn canonicalise(tag: &str) -> (r: Option<String>)
    ensures
        r matches Some(s) ==> canonical_text(utf8(tag@)) == Some(s@),
        r is None ==> canonical_text(utf8(tag@)) is None,
{
    canonical_bytes(tag.as_bytes())
}

// ---------------------------------------------------------------------
// File names
// ---------------------------------------------------------------------

pub open spec fn json_suffix() -> Seq<u8> {
    seq![0x2Eu8, 0x6Au8, 0x73u8, 0x6Fu8, 0x6Eu8]
}

pub open spec fn arb_suffix() -> Seq<u8> {
    seq![0x2Eu8, 0x61u8, 0x72u8, 0x62u8]
}

pub open spec fn ends_in(b: Seq<u8>, suffix: Seq<u8>) -> bool {
    suffix.len() <= b.len() && b.subrange(b.len() - suffix.len(), b.len() as int) == suffix
}

/// Where a file name's stem ends: before `.json` or `.arb`, or at its end.
pub open spec fn stem_end(b: Seq<u8>) -> int {
    if ends_in(b, json_suffix()) {
        b.len() - 5
    } else if ends_in(b, arb_suffix()) {
        b.len() - 4
    } else {
        b.len() as int
    }
}

/// The segments of a file name, without its extension.
pub open spec fn stem_pieces(b: Seq<u8>) -> Seq<Seq<u8>> {
    pieces(b.subrange(0, stem_end(b)), Separators::Segment)
}

fn stem_length(bytes: &[u8]) -> (r: usize)
    ensures
        r == stem_end(bytes@),
{
    let n = bytes.len();
    if n >= 5 && bytes[n - 5] == 0x2E && bytes[n - 4] == 0x6A && bytes[n - 3] == 0x73 && bytes[n
        - 2] == 0x6F && bytes[n - 1] == 0x6E {
        assert(bytes@.subrange(n - 5, n as int) =~= json_suffix());
        return n - 5;
    }
    if n >= 5 {
        assert(!ends_in(bytes@, json_suffix())) by {
            if ends_in(bytes@, json_suffix()) {
                let t = bytes@.subrange(n - 5, n as int);
                assert(t[0] == bytes@[n - 5] && t[1] == bytes@[n - 4] && t[2] == bytes@[n - 3]
                    && t[3] == bytes@[n - 2] && t[4] == bytes@[n - 1]);
            }
        }
    }
    if n >= 4 && bytes[n - 4] == 0x2E && bytes[n - 3] == 0x61 && bytes[n - 2] == 0x72 && bytes[n
        - 1] == 0x62 {
        assert(bytes@.subrange(n - 4, n as int) =~= arb_suffix());
        return n - 4;
    }
    if n >= 4 {
        assert(!ends_in(bytes@, arb_suffix())) by {
            if ends_in(bytes@, arb_suffix()) {
                let t = bytes@.subrange(n - 4, n as int);
                assert(t[0] == bytes@[n - 4] && t[1] == bytes@[n - 3] && t[2] == bytes@[n - 2]
                    && t[3] == bytes@[n - 1]);
            }
        }
    }
    n
}

/// The segments of a file name, without its extension, as byte ranges.
///
/// `_` separates as much as `.` does.
pub fn stem(bytes: &[u8]) -> (r: Vec<(usize, usize)>)
    ensures
        r@.map_values(|x: (usize, usize)| (x.0 as int, x.1 as int)) == split_ranges(
            bytes@.subrange(0, stem_end(bytes@)),
            Separators::Segment,
        ),
{
    let end = stem_length(bytes);
    split(bytes, end, Separators::Segment)
}

/// A stem's segments start and end on character boundaries of the name.
pub proof fn lemma_stem_boundaries(b: Seq<u8>, r: (int, int))
    requires
        valid_utf8(b),
        between_separators(b.subrange(0, stem_end(b)), Separators::Segment, r),
    ensures
        boundary(b, r.0),
        boundary(b, r.1),
        0 <= r.0 <= r.1 <= stem_end(b) <= b.len(),
        piece(b.subrange(0, stem_end(b)), r) == b.subrange(r.0, r.1),
{
    let se = stem_end(b);
    let t = b.subrange(0, se);
    if r.0 > 0 {
        assert(t[r.0 - 1] == b[r.0 - 1]);
        lemma_after_ascii(b, r.0 - 1);
    }
    if r.1 < se {
        assert(t[r.1] == b[r.1]);
    } else if se < b.len() {
        if ends_in(b, json_suffix()) {
            assert(b.subrange(b.len() - 5, b.len() as int)[0] == b[se]);
        } else {
            assert(b.subrange(b.len() - 4, b.len() as int)[0] == b[se]);
        }
    }
    assert(piece(t, r) =~= b.subrange(r.0, r.1));
}

/// How many leading pieces two lists agree on, counting from `k`.
pub open spec fn common_from(a: Seq<Seq<u8>>, b: Seq<Seq<u8>>, k: int) -> int
    decreases a.len() - k,
{
    if 0 <= k < a.len() && k < b.len() && a[k] == b[k] {
        common_from(a, b, k + 1)
    } else {
        k
    }
}

pub open spec fn shared_from(stems: Seq<Seq<Seq<u8>>>, i: int, acc: int) -> int
    decreases stems.len() - i,
{
    if i < 1 || i >= stems.len() {
        acc
    } else {
        let c = common_from(stems[0], stems[i], 0);
        shared_from(stems, i + 1, if c < acc { c } else { acc })
    }
}

/// How many leading segments every name in the set has in common. A set
/// of one shares all of its own segments, so a lone file is the base
/// catalogue — which is honest, because a lone file has nothing to be
/// compared against anyway.
pub open spec fn spec_shared_prefix(stems: Seq<Seq<Seq<u8>>>) -> int {
    if stems.len() == 0 {
        0
    } else {
        shared_from(stems, 1, stems[0].len() as int)
    }
}

pub proof fn lemma_common_from(a: Seq<Seq<u8>>, b: Seq<Seq<u8>>, k: int)
    requires
        0 <= k <= a.len(),
        k <= b.len(),
    ensures
        k <= common_from(a, b, k) <= a.len(),
        common_from(a, b, k) <= b.len(),
    decreases a.len() - k,
{
    if k < a.len() && k < b.len() && a[k] == b[k] {
        lemma_common_from(a, b, k + 1);
    }
}

pub proof fn lemma_shared_from(stems: Seq<Seq<Seq<u8>>>, i: int, acc: int)
    requires
        1 <= i,
        stems.len() >= 1,
        0 <= acc <= stems[0].len(),
        forall|k: int| 1 <= k < i && k < stems.len() ==> acc <= #[trigger] stems[k].len(),
    ensures
        0 <= shared_from(stems, i, acc) <= acc,
        forall|k: int| 0 <= k < stems.len() ==> shared_from(stems, i, acc) <= #[trigger] stems[k].len(),
    decreases stems.len() - i,
{
    if i < stems.len() {
        lemma_common_from(stems[0], stems[i], 0);
        let c = common_from(stems[0], stems[i], 0);
        let next = if c < acc { c } else { acc };
        lemma_shared_from(stems, i + 1, next);
    }
}

/// The shared prefix is no longer than any name's segments.
pub proof fn lemma_shared_prefix(stems: Seq<Seq<Seq<u8>>>)
    ensures
        0 <= spec_shared_prefix(stems),
        forall|k: int| 0 <= k < stems.len() ==> spec_shared_prefix(stems) <= #[trigger] stems[k].len(),
{
    if stems.len() > 0 {
        lemma_shared_from(stems, 1, stems[0].len() as int);
    }
}

/// The stem segments of each name.
pub open spec fn stems_of(names: Seq<String>) -> Seq<Seq<Seq<u8>>> {
    names.map_values(|n: String| stem_pieces(utf8(n@)))
}

/// Pieces joined by `-`: `pt`, `br` → `pt-br`.
pub open spec fn joined(ps: Seq<Seq<u8>>) -> Seq<u8>
    decreases ps.len(),
{
    if ps.len() == 0 {
        seq![]
    } else if ps.len() == 1 {
        ps[0]
    } else {
        joined(ps.drop_last()) + seq![0x2Du8] + ps.last()
    }
}

/// What the name whose stem segments are `ps` is, once `shared` of them
/// are known to be the set's prefix: the base catalogue (`None`), a
/// locale, or — as `Err` — a leftover that is not a language tag.
pub open spec fn spec_locale_of(ps: Seq<Seq<u8>>, shared: int) -> Result<Option<Seq<char>>, Seq<u8>> {
    let rest = ps.subrange(shared, ps.len() as int);
    if rest.len() == 0 {
        Ok(None)
    } else {
        match canonical_text(joined(rest)) {
            Some(c) => Ok(Some(c)),
            None => Err(joined(rest)),
        }
    }
}

/// The locales of the first `n` names, or the first name among them whose
/// leftover is not a tag, with that leftover.
pub open spec fn locales_upto(stems: Seq<Seq<Seq<u8>>>, shared: int, n: int) -> Result<
    Seq<Option<Seq<char>>>,
    (int, Seq<u8>),
>
    decreases n,
{
    if n <= 0 {
        Ok(seq![])
    } else {
        match locales_upto(stems, shared, n - 1) {
            Err(e) => Err(e),
            Ok(v) => match spec_locale_of(stems[n - 1], shared) {
                Ok(l) => Ok(v.push(l)),
                Err(t) => Err((n - 1, t)),
            },
        }
    }
}

/// The locale of every name in a set, in order; or the first name whose
/// leftover is not a language tag.
pub open spec fn spec_locales(names: Seq<String>) -> Result<Seq<Option<Seq<char>>>, (int, Seq<u8>)> {
    let stems = stems_of(names);
    locales_upto(stems, spec_shared_prefix(stems), names.len() as int)
}

pub open spec fn opt_view(o: Option<String>) -> Option<Seq<char>> {
    match o {
        Some(s) => Some(s@),
        None => None,
    }
}

/// The refusal for a set with a leftover that is not a tag.
pub open spec fn set_refusal(name: Seq<char>, tag: Seq<u8>) -> Seq<u8> {
    utf8(name) + utf8(": \""@) + tag + utf8("\" is not a language tag, so this is not a catalogue set"@)
}

/// A name's stem segments, as the ranges `stem` returns for it.
pub proof fn lemma_stem_piece(b: Seq<u8>, ranges: Seq<(int, int)>, k: int)
    requires
        ranges == split_ranges(b.subrange(0, stem_end(b)), Separators::Segment),
        0 <= k < ranges.len(),
    ensures
        0 <= ranges[k].0 <= ranges[k].1 <= stem_end(b) <= b.len(),
        stem_pieces(b).len() == ranges.len(),
        stem_pieces(b)[k] == b.subrange(ranges[k].0, ranges[k].1),
{
    let t = b.subrange(0, stem_end(b));
    lemma_split_ranges(t, Separators::Segment);
    assert(between_separators(t, Separators::Segment, ranges[k]));
    assert(piece(t, ranges[k]) =~= b.subrange(ranges[k].0, ranges[k].1));
}

/// Whether two byte ranges hold the same bytes.
pub fn piece_equal(a: &[u8], ra: (usize, usize), b: &[u8], rb: (usize, usize)) -> (r: bool)
    requires
        ra.0 <= ra.1 <= a@.len(),
        rb.0 <= rb.1 <= b@.len(),
    ensures
        r == (a@.subrange(ra.0 as int, ra.1 as int) == b@.subrange(rb.0 as int, rb.1 as int)),
{
    crate::text::equal_bytes(&a[ra.0..ra.1], &b[rb.0..rb.1])
}

fn piece_equal_at(
    a: &[u8],
    ra: &Vec<(usize, usize)>,
    b: &[u8],
    rb: &Vec<(usize, usize)>,
    k: usize,
    fa: Ghost<Seq<(int, int)>>,
    fb: Ghost<Seq<(int, int)>>,
) -> (r: bool)
    requires
        k < ra@.len(),
        k < rb@.len(),
        fa@ == ra@.map_values(|x: (usize, usize)| (x.0 as int, x.1 as int)),
        fa@ == split_ranges(a@.subrange(0, stem_end(a@)), Separators::Segment),
        fb@ == rb@.map_values(|x: (usize, usize)| (x.0 as int, x.1 as int)),
        fb@ == split_ranges(b@.subrange(0, stem_end(b@)), Separators::Segment),
    ensures
        r == (stem_pieces(a@)[k as int] == stem_pieces(b@)[k as int]),
{
    proof {
        lemma_stem_piece(a@, fa@, k as int);
        lemma_stem_piece(b@, fb@, k as int);
        assert(fa@[k as int] == (ra@[k as int].0 as int, ra@[k as int].1 as int));
        assert(fb@[k as int] == (rb@[k as int].0 as int, rb@[k as int].1 as int));
    }
    piece_equal(a, ra[k], b, rb[k])
}

/// How many leading segments every name in the set has in common.
pub fn shared_prefix(names: &[String], stems: &Vec<Vec<(usize, usize)>>) -> (r: usize)
    requires
        stems@.len() == names@.len(),
        forall|i: int|
            0 <= i < names@.len() ==> (#[trigger] stems@[i])@.map_values(
                |x: (usize, usize)| (x.0 as int, x.1 as int),
            ) == split_ranges(
                utf8(names@[i]@).subrange(0, stem_end(utf8(names@[i]@))),
                Separators::Segment,
            ),
    ensures
        r == spec_shared_prefix(stems_of(names@)),
{
    let ghost st = stems_of(names@);
    if names.len() == 0 {
        return 0;
    }
    let first = names[0].as_str().as_bytes();
    let first_ranges = &stems[0];
    let ghost fr = first_ranges@.map_values(|x: (usize, usize)| (x.0 as int, x.1 as int));
    let mut shared = first_ranges.len();
    proof {
        assert(st[0] == stem_pieces(utf8(names@[0]@)));
        lemma_split_ranges(first@.subrange(0, stem_end(first@)), Separators::Segment);
        lemma_stem_piece(first@, fr, 0);
        assert(first_ranges@.len() == st[0].len());
    }
    let mut i: usize = 1;
    while i < names.len()
        invariant
            1 <= i <= names@.len(),
            st == stems_of(names@),
            stems@.len() == names@.len(),
            forall|j: int|
                0 <= j < names@.len() ==> (#[trigger] stems@[j])@.map_values(
                    |x: (usize, usize)| (x.0 as int, x.1 as int),
                ) == split_ranges(
                    utf8(names@[j]@).subrange(0, stem_end(utf8(names@[j]@))),
                    Separators::Segment,
                ),
            first@ == utf8(names@[0]@),
            *first_ranges == stems@[0],
            fr == first_ranges@.map_values(|x: (usize, usize)| (x.0 as int, x.1 as int)),
            fr == split_ranges(first@.subrange(0, stem_end(first@)), Separators::Segment),
            first_ranges@.len() == st[0].len(),
            spec_shared_prefix(st) == shared_from(st, i as int, shared as int),
            shared <= first_ranges@.len(),
        decreases names@.len() - i,
    {
        let other = names[i].as_str().as_bytes();
        let other_ranges = &stems[i];
        let ghost or = other_ranges@.map_values(|x: (usize, usize)| (x.0 as int, x.1 as int));
        proof {
            assert(st[i as int] == stem_pieces(other@));
            assert(or == split_ranges(other@.subrange(0, stem_end(other@)), Separators::Segment));
            lemma_split_ranges(other@.subrange(0, stem_end(other@)), Separators::Segment);
            assert(or.len() == st[i as int].len());
        }
        let mut k: usize = 0;
        while k < first_ranges.len() && k < other_ranges.len() && piece_equal_at(first, first_ranges, other, other_ranges, k, Ghost(fr), Ghost(or))
            invariant
                0 <= k <= first_ranges@.len(),
                fr == first_ranges@.map_values(|x: (usize, usize)| (x.0 as int, x.1 as int)),
                fr == split_ranges(first@.subrange(0, stem_end(first@)), Separators::Segment),
                or == other_ranges@.map_values(|x: (usize, usize)| (x.0 as int, x.1 as int)),
                or == split_ranges(other@.subrange(0, stem_end(other@)), Separators::Segment),
                st[0] == stem_pieces(first@),
                st[i as int] == stem_pieces(other@),
                common_from(st[0], st[i as int], 0) == common_from(st[0], st[i as int], k as int),
            decreases first_ranges@.len() - k,
        {
            proof {
                lemma_stem_piece(first@, fr, k as int);
                lemma_stem_piece(other@, or, k as int);
            }
            k += 1;
        }
        proof {
            if k < first_ranges@.len() && k < other_ranges@.len() {
                lemma_stem_piece(first@, fr, k as int);
                lemma_stem_piece(other@, or, k as int);
            }
            assert(common_from(st[0], st[i as int], k as int) == k);
        }
        if k < shared {
            shared = k;
        }
        i += 1;
    }
    shared
}

/// The leftover segments of a name as one tag, whatever separator wrote
/// them: `pt-br`, `pt_BR` and `zh.CN` all reach here as two pieces.
fn tag_of(name: &str, segments: &Vec<(usize, usize)>, shared: usize, ranges: Ghost<Seq<(int, int)>>) -> (r: String)
    requires
        ranges@ == segments@.map_values(|x: (usize, usize)| (x.0 as int, x.1 as int)),
        ranges@ == split_ranges(
            utf8(name@).subrange(0, stem_end(utf8(name@))),
            Separators::Segment,
        ),
        shared <= segments@.len(),
    ensures
        utf8(r@) == joined(stem_pieces(utf8(name@)).subrange(shared as int, segments@.len() as int)),
{
    let bytes = name.as_bytes();
    let ghost ps = stem_pieces(bytes@);
    proof {
        encode_utf8_valid_utf8(name@);
        lemma_split_ranges(bytes@.subrange(0, stem_end(bytes@)), Separators::Segment);
    }
    let mut tag = String::new();
    proof {
        assert(utf8(tag@) =~= Seq::<u8>::empty());
        assert(ps.subrange(shared as int, shared as int) =~= Seq::<Seq<u8>>::empty());
    }
    let mut k = shared;
    while k < segments.len()
        invariant
            shared <= k <= segments@.len(),
            bytes@ == utf8(name@),
            ps == stem_pieces(bytes@),
            ps.len() == segments@.len(),
            ranges@ == segments@.map_values(|x: (usize, usize)| (x.0 as int, x.1 as int)),
            ranges@ == split_ranges(bytes@.subrange(0, stem_end(bytes@)), Separators::Segment),
            valid_utf8(bytes@),
            utf8(tag@) == joined(ps.subrange(shared as int, k as int)),
        decreases segments@.len() - k,
    {
        let r = segments[k];
        proof {
            assert(ranges@[k as int] == (r.0 as int, r.1 as int));
            lemma_stem_piece(bytes@, ranges@, k as int);
            lemma_split_ranges(bytes@.subrange(0, stem_end(bytes@)), Separators::Segment);
            assert(between_separators(bytes@.subrange(0, stem_end(bytes@)), Separators::Segment, ranges@[k as int]));
            lemma_stem_boundaries(bytes@, ranges@[k as int]);
        }
        let ghost before = tag@;
        if k > shared {
            push_char(&mut tag, '-');
        }
        let part = substring(name, r.0, r.1);
        let ghost middle = tag@;
        tag.append(part);
        proof {
            let sub = ps.subrange(shared as int, k + 1);
            assert(sub.drop_last() =~= ps.subrange(shared as int, k as int));
            assert(sub.last() == ps[k as int]);
            lemma_utf8_concat(middle, part@);
            assert(utf8(part@) == ps[k as int]);
            if k > shared {
                assert(middle =~= before + seq!['-']);
                lemma_utf8_concat(before, seq!['-']);
                lemma_utf8_ascii_char('-');
                assert(('-' as u8) == 0x2Du8);
                assert(utf8(middle) == joined(sub.drop_last()) + seq![0x2Du8]);
                assert(joined(sub) == joined(sub.drop_last()) + seq![0x2Du8] + sub.last());
                assert(utf8(tag@) =~= joined(sub));
            } else {
                assert(sub.len() == 1);
                assert(utf8(middle) =~= Seq::<u8>::empty());
                assert(utf8(tag@) =~= joined(sub));
            }
        }
        k += 1;
    }
    tag
}

/// The locale of a name whose first `shared` segments are the set's
/// prefix.
pub fn locale_of(name: &str, segments: &Vec<(usize, usize)>, shared: usize) -> (r: Result<Option<String>, String>)
    requires
        segments@.map_values(|x: (usize, usize)| (x.0 as int, x.1 as int)) == split_ranges(
            utf8(name@).subrange(0, stem_end(utf8(name@))),
            Separators::Segment,
        ),
        shared <= segments@.len(),
    ensures
        match spec_locale_of(stem_pieces(utf8(name@)), shared as int) {
            Ok(l) => r matches Ok(x) && opt_view(x) == l,
            Err(t) => r matches Err(e) && utf8(e@) == set_refusal(name@, t),
        },
{
    let ghost ranges = segments@.map_values(|x: (usize, usize)| (x.0 as int, x.1 as int));
    let ghost ps = stem_pieces(utf8(name@));
    proof {
        lemma_split_ranges(utf8(name@).subrange(0, stem_end(utf8(name@))), Separators::Segment);
        assert(ps.len() == segments@.len());
    }
    if shared == segments.len() {
        assert(ps.subrange(shared as int, ps.len() as int) =~= Seq::<Seq<u8>>::empty());
        return Ok(None);
    }
    let tag = tag_of(name, segments, shared, Ghost(ranges));
    match canonicalise(tag.as_str()) {
        Some(locale) => Ok(Some(locale)),
        None => {
            let mut e = String::from_str(name);
            let ghost a = e@;
            e.append(": \"");
            let ghost b = e@;
            e.append(tag.as_str());
            let ghost c = e@;
            e.append("\" is not a language tag, so this is not a catalogue set");
            proof {
                lemma_utf8_concat(a, ": \""@);
                lemma_utf8_concat(b, tag@);
                lemma_utf8_concat(c, "\" is not a language tag, so this is not a catalogue set"@);
            }
            Err(e)
        },
    }
}

/// The locale of every file in a set, in the order given. `None` is the
/// base catalogue — `bundle.l10n.json` beside `bundle.l10n.de.json`.
///
/// Refuses when a leftover segment is not shaped like a language tag.
/// That refusal is what stops a repository root from being audited as a
/// catalogue set: neither `package` nor `tsconfig` is a tag, so the
/// question is named as the wrong one rather than answered.
pub fn locales_of(names: &[String]) -> (r: Result<Vec<Option<String>>, String>)
    ensures
        match spec_locales(names@) {
            Ok(ls) => r matches Ok(v) && v@.map_values(|o: Option<String>| opt_view(o)) == ls,
            Err((i, t)) => r matches Err(e) && utf8(e@) == set_refusal(names@[i]@, t),
        },
{
    let mut stems: Vec<Vec<(usize, usize)>> = Vec::new();
    let mut i: usize = 0;
    while i < names.len()
        invariant
            0 <= i <= names@.len(),
            stems@.len() == i,
            forall|j: int|
                0 <= j < i ==> (#[trigger] stems@[j])@.map_values(
                    |x: (usize, usize)| (x.0 as int, x.1 as int),
                ) == split_ranges(
                    utf8(names@[j]@).subrange(0, stem_end(utf8(names@[j]@))),
                    Separators::Segment,
                ),
        decreases names@.len() - i,
    {
        stems.push(stem(names[i].as_str().as_bytes()));
        i += 1;
    }
    let shared = shared_prefix(names, &stems);
    let ghost st = stems_of(names@);
    proof {
        lemma_shared_prefix(st);
    }
    let mut out: Vec<Option<String>> = Vec::new();
    proof {
        assert(out@.map_values(|o: Option<String>| opt_view(o)) =~= Seq::<Option<Seq<char>>>::empty());
    }
    let mut i: usize = 0;
    while i < names.len()
        invariant
            0 <= i <= names@.len(),
            stems@.len() == names@.len(),
            forall|j: int|
                0 <= j < names@.len() ==> (#[trigger] stems@[j])@.map_values(
                    |x: (usize, usize)| (x.0 as int, x.1 as int),
                ) == split_ranges(
                    utf8(names@[j]@).subrange(0, stem_end(utf8(names@[j]@))),
                    Separators::Segment,
                ),
            st == stems_of(names@),
            shared == spec_shared_prefix(st),
            forall|k: int| 0 <= k < st.len() ==> spec_shared_prefix(st) <= #[trigger] st[k].len(),
            locales_upto(st, shared as int, i as int) == Ok::<Seq<Option<Seq<char>>>, (int, Seq<u8>)>(
                out@.map_values(|o: Option<String>| opt_view(o)),
            ),
        decreases names@.len() - i,
    {
        proof {
            assert(st[i as int] == stem_pieces(utf8(names@[i as int]@)));
            lemma_split_ranges(utf8(names@[i as int]@).subrange(0, stem_end(utf8(names@[i as int]@))), Separators::Segment);
        }
        match locale_of(names[i].as_str(), &stems[i], shared) {
            Ok(locale) => {
                let ghost before = out@.map_values(|o: Option<String>| opt_view(o));
                out.push(locale);
                proof {
                    assert(out@.map_values(|o: Option<String>| opt_view(o)) =~= before.push(opt_view(locale)));
                }
            },
            Err(e) => {
                proof {
                    lemma_locales_stop(st, shared as int, i as int + 1, names@.len() as int);
                }
                return Err(e);
            },
        }
        i += 1;
    }
    Ok(out)
}

/// Once a name is refused, the refusal is the answer for the whole set.
pub proof fn lemma_locales_stop(st: Seq<Seq<Seq<u8>>>, shared: int, n: int, m: int)
    requires
        0 < n <= m,
        locales_upto(st, shared, n) is Err,
    ensures
        locales_upto(st, shared, m) == locales_upto(st, shared, n),
    decreases m - n,
{
    if m > n {
        lemma_locales_stop(st, shared, n, m - 1);
    }
}

} // verus!

verus! {

/// Where the run of `.` and `_` that starts at `i` ends.
pub open spec fn marks_from(b: Seq<u8>, i: int) -> int
    decreases b.len() - i,
{
    if 0 <= i < b.len() && (b[i] == 0x2Eu8 || b[i] == 0x5Fu8) {
        marks_from(b, i + 1)
    } else {
        i
    }
}

/// What a name reads as under a known prefix: the base catalogue (`None`),
/// a locale; or, as `Err`, `None` when the stem does not start with the
/// prefix and the leftover when it is not a language tag.
pub open spec fn spec_from_prefix(b: Seq<u8>, p: Seq<u8>) -> Result<
    Option<Seq<char>>,
    Option<Seq<u8>>,
> {
    let stem = b.subrange(0, stem_end(b));
    if !(p.len() <= stem.len() && stem.subrange(0, p.len() as int) == p) {
        Err(None)
    } else {
        let rest = stem.subrange(p.len() as int, stem.len() as int);
        if rest.len() == 0 {
            Ok(None)
        } else {
            let tag = rest.subrange(marks_from(rest, 0), rest.len() as int);
            match canonical_text(tag) {
                Some(c) => Ok(Some(c)),
                None => Err(Some(tag)),
            }
        }
    }
}

/// The refusal for a name that does not carry the known prefix.
pub open spec fn foreign_refusal(name: Seq<char>, prefix: Seq<char>) -> Seq<u8> {
    utf8(name) + utf8(" is not a "@) + utf8(prefix) + utf8(" catalogue"@)
}

/// The refusal for a leftover that is not a language tag.
pub open spec fn tag_refusal(name: Seq<char>, tag: Seq<u8>) -> Seq<u8> {
    utf8(name) + utf8(": \""@) + tag + utf8("\" is not a language tag"@)
}

/// The locale of a file whose convention writes a **known** prefix —
/// `package.nls.de.json`, where the prefix is `package.nls` and the
/// leftover, after the `.` or `_` that follows the prefix, is the tag.
///
/// With the prefix given rather than inferred, one name is readable on
/// its own, so a set no longer has to sit in one directory.
pub fn from_prefix(name: &str, prefix: &str) -> (r: Result<Option<String>, String>)
    ensures
        match spec_from_prefix(utf8(name@), utf8(prefix@)) {
            Ok(l) => r matches Ok(x) && opt_view(x) == l,
            Err(None) => r matches Err(e) && utf8(e@) == foreign_refusal(name@, prefix@),
            Err(Some(t)) => r matches Err(e) && utf8(e@) == tag_refusal(name@, t),
        },
{
    let bytes = name.as_bytes();
    let pb = prefix.as_bytes();
    let end = stem_length(bytes);
    let ghost b = bytes@;
    let ghost stem = b.subrange(0, end as int);
    proof {
        encode_utf8_valid_utf8(name@);
        encode_utf8_valid_utf8(prefix@);
    }
    if !(pb.len() <= end && starts_with(&bytes[0..end], pb)) {
        let mut e = String::from_str(name);
        let ghost a = e@;
        e.append(" is not a ");
        let ghost c = e@;
        e.append(prefix);
        let ghost d = e@;
        e.append(" catalogue");
        proof {
            assert(bytes@.subrange(0, end as int) == stem);
            lemma_utf8_concat(a, " is not a "@);
            lemma_utf8_concat(c, prefix@);
            lemma_utf8_concat(d, " catalogue"@);
        }
        return Err(e);
    }
    let start = pb.len();
    let ghost rest = stem.subrange(start as int, stem.len() as int);
    proof {
        assert(bytes@.subrange(0, end as int) == stem);
        assert(stem.subrange(0, start as int) =~= b.subrange(0, start as int));
    }
    if start == end {
        return Ok(None);
    }
    let mut i = start;
    while i < end && (bytes[i] == 0x2E || bytes[i] == 0x5F)
        invariant
            start <= i <= end <= b.len(),
            b == bytes@,
            stem == b.subrange(0, end as int),
            rest == stem.subrange(start as int, stem.len() as int),
            marks_from(rest, i - start) == marks_from(rest, 0),
            start < i ==> b[i - 1] == 0x2Eu8 || b[i - 1] == 0x5Fu8,
        decreases end - i,
    {
        assert(rest[i - start] == b[i as int]);
        i += 1;
    }
    proof {
        if i < end {
            assert(rest[i - start] == b[i as int]);
        }
        assert(marks_from(rest, i - start) == i - start);
        let se = stem_end(b);
        lemma_split_ranges(b.subrange(0, se), Separators::Segment);
        assert(between_separators(b.subrange(0, se), Separators::Segment, (0, se)));
        lemma_stem_boundaries(b, (0, se));
        if i > start {
            lemma_after_ascii(b, i - 1);
        } else {
            assert(b.subrange(0, start as int) =~= utf8(prefix@));
            lemma_prefix_boundary(b, utf8(prefix@));
        }
    }
    let tag = substring(name, i, end);
    proof {
        assert(utf8(tag@) =~= rest.subrange(marks_from(rest, 0), rest.len() as int));
    }
    match canonicalise(tag) {
        Some(locale) => Ok(Some(locale)),
        None => {
            let mut e = String::from_str(name);
            let ghost a = e@;
            e.append(": \"");
            let ghost c = e@;
            e.append(tag);
            let ghost d = e@;
            e.append("\" is not a language tag");
            proof {
                lemma_utf8_concat(a, ": \""@);
                lemma_utf8_concat(c, tag@);
                lemma_utf8_concat(d, "\" is not a language tag"@);
            }
            Err(e)
        },
    }
}

} // verus!

verus! {

/// A set's locales are one per name, and a refused name is one of them.
pub proof fn lemma_locales_upto(st: Seq<Seq<Seq<u8>>>, shared: int, n: int)
    requires
        0 <= n,
    ensures
        locales_upto(st, shared, n) matches Ok(v) ==> v.len() == n,
        locales_upto(st, shared, n) matches Err((i, t)) ==> 0 <= i < n,
    decreases n,
{
    if n > 0 {
        lemma_locales_upto(st, shared, n - 1);
    }
}

} // verus!

verus! {

// ---------------------------------------------------------------------
// One spelling per tag
// ---------------------------------------------------------------------

proof fn lemma_scan_skip(b: Seq<u8>, kind: Separators, i: int, j: int, start: int, acc: Seq<(int, int)>)
    requires
        0 <= i <= j <= b.len(),
        forall|k: int| i <= k < j ==> !separates(kind, #[trigger] b[k]),
    ensures
        split_scan(b, kind, i, start, acc) == split_scan(b, kind, j, start, acc),
    decreases j - i,
{
    if i < j {
        lemma_scan_skip(b, kind, i + 1, j, start, acc);
    }
}

pub open spec fn dashless(p: Seq<u8>) -> bool {
    forall|k: int| 0 <= k < p.len() ==> (#[trigger] p[k]) != 0x2Du8
}

proof fn lemma_pieces_one(p: Seq<u8>)
    requires
        dashless(p),
    ensures
        pieces(p, Separators::Dash) == seq![p],
{
    lemma_scan_skip(p, Separators::Dash, 0, p.len() as int, 0, seq![]);
    assert(split_ranges(p, Separators::Dash) =~= seq![(0int, p.len() as int)]);
    assert(p.subrange(0, p.len() as int) =~= p);
    assert(pieces(p, Separators::Dash) =~= seq![p]);
}

proof fn lemma_pieces_two(p: Seq<u8>, q: Seq<u8>)
    requires
        dashless(p),
        dashless(q),
    ensures
        pieces(p + seq![0x2Du8] + q, Separators::Dash) == seq![p, q],
{
    let b = p + seq![0x2Du8] + q;
    let d = Separators::Dash;
    let n = p.len() as int;
    assert forall|k: int| 0 <= k < n implies !separates(d, #[trigger] b[k]) by {
        assert(b[k] == p[k]);
    }
    lemma_scan_skip(b, d, 0, n, 0, seq![]);
    assert(b[n] == 0x2Du8);
    assert forall|k: int| n + 1 <= k < b.len() implies !separates(d, #[trigger] b[k]) by {
        assert(b[k] == q[k - n - 1]);
    }
    lemma_scan_skip(b, d, n + 1, b.len() as int, n + 1, seq![(0int, n)]);
    assert(split_ranges(b, d) =~= seq![(0int, n), (n + 1, b.len() as int)]);
    assert(b.subrange(0, n) =~= p);
    assert(b.subrange(n + 1, b.len() as int) =~= q);
    assert(pieces(b, d) =~= seq![p, q]);
}

proof fn lemma_pieces_three(p: Seq<u8>, q: Seq<u8>, r: Seq<u8>)
    requires
        dashless(p),
        dashless(q),
        dashless(r),
    ensures
        pieces(p + seq![0x2Du8] + q + seq![0x2Du8] + r, Separators::Dash) == seq![p, q, r],
{
    let b = p + seq![0x2Du8] + q + seq![0x2Du8] + r;
    let d = Separators::Dash;
    let n = p.len() as int;
    let m = n + 1 + q.len();
    assert forall|k: int| 0 <= k < n implies !separates(d, #[trigger] b[k]) by {
        assert(b[k] == p[k]);
    }
    lemma_scan_skip(b, d, 0, n, 0, seq![]);
    assert(b[n] == 0x2Du8);
    assert forall|k: int| n + 1 <= k < m implies !separates(d, #[trigger] b[k]) by {
        assert(b[k] == q[k - n - 1]);
    }
    lemma_scan_skip(b, d, n + 1, m, n + 1, seq![(0int, n)]);
    assert(b[m] == 0x2Du8);
    assert forall|k: int| m + 1 <= k < b.len() implies !separates(d, #[trigger] b[k]) by {
        assert(b[k] == r[k - m - 1]);
    }
    lemma_scan_skip(b, d, m + 1, b.len() as int, m + 1, seq![(0int, n), (n + 1, m)]);
    assert(seq![(0int, n)].push((n + 1, m)) =~= seq![(0int, n), (n + 1, m)]);
    assert(split_scan(b, d, n, 0, seq![]) == split_scan(b, d, n + 1, n + 1, seq![(0int, n)]));
    assert(split_scan(b, d, m, n + 1, seq![(0int, n)]) == split_scan(b, d, m + 1, m + 1, seq![(0int, n), (n + 1, m)]));
    assert(seq![(0int, n), (n + 1, m)].push((m + 1, b.len() as int)) =~= seq![(0int, n), (n + 1, m), (m + 1, b.len() as int)]);
    assert(split_ranges(b, d) =~= seq![(0int, n), (n + 1, m), (m + 1, b.len() as int)]);
    assert(b.subrange(0, n) =~= p);
    assert(b.subrange(n + 1, m) =~= q);
    assert(b.subrange(m + 1, b.len() as int) =~= r);
    assert(pieces(b, d) =~= seq![p, q, r]);
}

proof fn lemma_lowered(p: Seq<u8>)
    requires
        all_alpha(p),
    ensures
        lowered(p).len() == p.len(),
        all_alpha(lowered(p)),
        dashless(lowered(p)),
        lowered(lowered(p)) == lowered(p),
{
    assert(lowered(lowered(p)) =~= lowered(p));
}

proof fn lemma_uppered(p: Seq<u8>)
    requires
        spec_is_region(p),
    ensures
        spec_is_region(uppered(p)),
        !spec_is_script(uppered(p)),
        dashless(uppered(p)),
        uppered(uppered(p)) == uppered(p),
{
    assert(uppered(uppered(p)) =~= uppered(p));
    if p.len() == 3 {
        assert(uppered(p) =~= p);
    }
}

proof fn lemma_titled(p: Seq<u8>)
    requires
        spec_is_script(p),
    ensures
        spec_is_script(titled(p)),
        dashless(titled(p)),
        titled(titled(p)) == titled(p),
{
    let rest = p.subrange(1, p.len() as int);
    lemma_lowered(rest);
    let t = titled(p);
    assert(t.subrange(1, t.len() as int) =~= lowered(rest));
    assert(titled(t) =~= t);
}

/// A language tag has one spelling: the canonical spelling of a tag is
/// its own canonical spelling, so `pt-br`, `PT-BR` and `pt-BR` are one
/// locale however often they are read.
pub proof fn law_a_canonical_tag_is_its_own_spelling(t: Seq<u8>)
    ensures
        spec_canonical(t) matches Some(c) ==> spec_canonical(c) == Some(c),
        canonical_text(t) matches Some(s) ==> canonical_text(utf8(s)) == Some(s),
{
    if let Some(c) = spec_canonical(t) {
        lemma_canonical_again(t);
        assert forall|k: int| 0 <= k < c.len() implies (#[trigger] c[k]) < 128 by {
            lemma_canonical_ascii(t, k);
        }
        let s = chars_of(c);
        assert(vstd::utf8::is_ascii_chars(s));
        vstd::utf8::is_ascii_chars_encode_utf8(s);
        assert(utf8(s) =~= c);
    }
}

proof fn lemma_canonical_ascii(t: Seq<u8>, k: int)
    requires
        spec_canonical(t) is Some,
        0 <= k < spec_canonical(t)->0.len(),
    ensures
        spec_canonical(t)->0[k] < 128,
{
    let parts = pieces(t, Separators::Dash);
    let script = parts.len() > 1 && spec_is_script(parts[1]);
    let at = if script {
        2int
    } else {
        1int
    };
    let region = parts.len() > at && spec_is_region(parts[at]);
    let c = spec_canonical(t)->0;
    let l = lowered(parts[0]);
    let sp: Seq<u8> = if script {
        seq![0x2Du8] + titled(parts[1])
    } else {
        seq![]
    };
    let rp: Seq<u8> = if region {
        seq![0x2Du8] + uppered(parts[at])
    } else {
        seq![]
    };
    assert(c == l + sp + rp);
    if k < l.len() {
        assert(c[k] == l[k]);
        assert(is_alpha(parts[0][k]));
    } else if k < l.len() + sp.len() {
        assert(c[k] == sp[k - l.len()]);
        if k > l.len() {
            let j = k - l.len() - 1;
            let p = parts[1];
            assert(is_alpha(p[0]));
            if j > 0 {
                assert(is_alpha(p[j]));
            }
        }
    } else {
        assert(c[k] == rp[k - l.len() - sp.len()]);
        if k > l.len() + sp.len() {
            let j = k - l.len() - sp.len() - 1;
            let p = parts[at];
            assert(is_alpha(p[j]) || is_digit(p[j]));
        }
    }
}

proof fn lemma_canonical_again(t: Seq<u8>)
    ensures
        spec_canonical(t) matches Some(c) ==> spec_canonical(c) == Some(c),
{
    if let Some(c) = spec_canonical(t) {
        let parts = pieces(t, Separators::Dash);
        let script = parts.len() > 1 && spec_is_script(parts[1]);
        let at = if script {
            2int
        } else {
            1int
        };
        let region = parts.len() > at && spec_is_region(parts[at]);
        let l = lowered(parts[0]);
        lemma_lowered(parts[0]);
        if script {
            lemma_titled(parts[1]);
        }
        if region {
            lemma_uppered(parts[at]);
        }
        if script && region {
            lemma_pieces_three(l, titled(parts[1]), uppered(parts[2]));
            assert(c =~= l + seq![0x2Du8] + titled(parts[1]) + seq![0x2Du8] + uppered(parts[2]));
        } else if script {
            lemma_pieces_two(l, titled(parts[1]));
            assert(c =~= l + seq![0x2Du8] + titled(parts[1]));
        } else if region {
            lemma_pieces_two(l, uppered(parts[1]));
            assert(c =~= l + seq![0x2Du8] + uppered(parts[1]));
        } else {
            lemma_pieces_one(l);
            assert(c =~= l);
        }
    }
}

} // verus!

verus! {

proof fn lemma_common_agrees(a: Seq<Seq<u8>>, b: Seq<Seq<u8>>, k: int)
    requires
        0 <= k <= a.len(),
        k <= b.len(),
        forall|j: int| 0 <= j < k ==> a[j] == b[j],
    ensures
        forall|j: int| 0 <= j < common_from(a, b, k) ==> #[trigger] a[j] == b[j],
        common_from(a, b, k) == a.len() || common_from(a, b, k) == b.len() || a[common_from(a, b, k)] != b[common_from(
            a,
            b,
            k,
        )],
    decreases a.len() - k,
{
    lemma_common_from(a, b, k);
    if k < a.len() && k < b.len() && a[k] == b[k] {
        lemma_common_agrees(a, b, k + 1);
    }
}

proof fn lemma_shared_least(stems: Seq<Seq<Seq<u8>>>, i: int, acc: int)
    requires
        1 <= i,
        stems.len() >= 1,
        0 <= acc <= stems[0].len(),
        forall|k: int| 1 <= k < i && k < stems.len() ==> acc <= #[trigger] common_from(stems[0], stems[k], 0),
        acc == stems[0].len() || exists|k: int| 1 <= k < i && k < stems.len() && #[trigger] common_from(stems[0], stems[k], 0) == acc,
    ensures
        forall|k: int| 1 <= k < stems.len() ==> shared_from(stems, i, acc) <= #[trigger] common_from(stems[0], stems[k], 0),
        shared_from(stems, i, acc) == stems[0].len() || exists|k: int|
            1 <= k < stems.len() && #[trigger] common_from(stems[0], stems[k], 0) == shared_from(stems, i, acc),
    decreases stems.len() - i,
{
    if i < stems.len() {
        lemma_common_from(stems[0], stems[i], 0);
        let c = common_from(stems[0], stems[i], 0);
        let next = if c < acc { c } else { acc };
        lemma_shared_least(stems, i + 1, next);
    }
}

/// A set's shared prefix is the longest run of leading segments every
/// name has in common: none when there are no names, all of its own for a
/// lone name, and otherwise a run every name agrees on that cannot be made
/// longer — the first name ends there, or some name ends there or differs.
pub proof fn law_the_shared_prefix_is_the_longest_common_one(stems: Seq<Seq<Seq<u8>>>)
    ensures
        stems.len() == 0 ==> spec_shared_prefix(stems) == 0,
        stems.len() == 1 ==> spec_shared_prefix(stems) == stems[0].len(),
        stems.len() > 0 ==> {
            let r = spec_shared_prefix(stems);
            &&& forall|k: int| 0 <= k < stems.len() ==> r <= #[trigger] stems[k].len()
            &&& forall|k: int, j: int| 0 <= k < stems.len() && 0 <= j < r ==> #[trigger] stems[k][j] == stems[0][j]
            &&& (r == stems[0].len() || exists|k: int|
                0 <= k < stems.len() && (r == stems[k].len() || #[trigger] stems[k][r] != stems[0][r]))
        },
{
    lemma_shared_prefix(stems);
    if stems.len() > 0 {
        let r = spec_shared_prefix(stems);
        lemma_shared_least(stems, 1, stems[0].len() as int);
        assert forall|k: int, j: int| 0 <= k < stems.len() && 0 <= j < r implies #[trigger] stems[k][j] == stems[0][j] by {
            if k >= 1 {
                lemma_common_agrees(stems[0], stems[k], 0);
                assert(j < common_from(stems[0], stems[k], 0));
                assert(stems[0][j] == stems[k][j]);
            }
        }
        if r != stems[0].len() {
            let k = choose|k: int| 1 <= k < stems.len() && #[trigger] common_from(stems[0], stems[k], 0) == r;
            lemma_common_agrees(stems[0], stems[k], 0);
            assert(r == stems[k].len() || stems[k][r] != stems[0][r]);
            assert(0 <= k < stems.len() && (r == stems[k].len() || stems[k][r] != stems[0][r]));
        }
        assert(forall|k: int| 0 <= k < stems.len() ==> r <= #[trigger] stems[k].len());
        assert(forall|k: int, j: int| 0 <= k < stems.len() && 0 <= j < r ==> #[trigger] stems[k][j] == stems[0][j]);
        assert(r == stems[0].len() || exists|k: int|
                0 <= k < stems.len() && (r == stems[k].len() || #[trigger] stems[k][r] != stems[0][r]));
    }
}

} // verus!

verus! {

/// The locales of a set depend on the names' text alone.
pub proof fn lemma_locales_by_text(a: Seq<String>, b: Seq<String>)
    requires
        a.len() == b.len(),
        forall|i: int| 0 <= i < a.len() ==> (#[trigger] a[i])@ == b[i]@,
    ensures
        spec_locales(a) == spec_locales(b),
{
    assert(stems_of(a) =~= stems_of(b));
}

} // verus!

verus! {

proof fn lemma_locales_upto_index(stems: Seq<Seq<Seq<u8>>>, shared: int, n: int)
    ensures
        locales_upto(stems, shared, n) matches Err((i, t)) ==> 0 <= i < n,
    decreases n,
{
    if n > 0 {
        lemma_locales_upto_index(stems, shared, n - 1);
    }
}

/// A set refused for its names is refused for one of them.
pub proof fn lemma_locales_index(names: Seq<String>)
    ensures
        spec_locales(names) matches Err((i, t)) ==> 0 <= i < names.len(),
{
    let stems = stems_of(names);
    lemma_locales_upto_index(stems, spec_shared_prefix(stems), names.len() as int);
}

} // verus!
