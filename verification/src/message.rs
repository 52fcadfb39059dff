//! Reading one message under a **known** grammar.
//!
//! There is no classification here. By the time anything in this module
//! runs, identification has already said which library wrote the file, so
//! the lexer is told what the braces mean instead of guessing from what
//! it finds between them: `{name}` is valid ICU *and* literal text in
//! i18next *and* literal text in a VS Code bundle, and no amount of
//! looking at the bytes settles which.
//!
//! Two kinds of thing come back besides the placeholders:
//!
//! - **`foreign`** — a construct from another convention, which the
//!   loader renders to a user verbatim: a `convention-mismatch`.
//! - **`others`** — an interpolation in a style this library does not
//!   read. On its own that is prose; it only becomes a
//!   `placeholder-style-mismatch` when the source had a real placeholder
//!   at the same key.
//!
//! The lexer is specified by `spec_parse`, a left-to-right reading of the
//! bytes one construct at a time, and `parse` is proved to compute it. The
//! second half of the module is the identification scan: grammar-free
//! predicates that answer "does this look like library X".

use vstd::prelude::*;

use crate::library::{Grammar, Interpolation, Mark};
use crate::text::{boundary, ends_with, push_char, substring, utf8};

verus! {

#[derive(Debug, Clone, Copy, PartialEq, Eq, Structural)]
pub enum Construct {
    /// `{count, plural, ...}` where ICU is not native.
    IcuArgument,
    /// `{ $variable }`.
    Fluent,
    /// `%s`, `%d`, `%1$s`.
    Printf,
    /// `${...}`.
    TemplateLiteral,
    /// `$t(other.key)` where nesting is not native.
    Nesting,
}

#[derive(Debug, Clone, PartialEq, Eq)]
pub struct Token {
    pub name: String,
}

#[derive(Debug, Clone, Copy, PartialEq, Eq, Structural)]
pub struct Foreign {
    pub construct: Construct,
    /// Byte offset into the message. A fact about the text, not the text.
    pub offset: usize,
}

#[derive(Debug, Clone, PartialEq, Eq)]
pub struct Parsed {
    pub tokens: Vec<Token>,
    pub foreign: Vec<Foreign>,
    /// Interpolations written in a style this library does not read.
    pub others: Vec<Interpolation>,
}

/// What a message holds, as the specification sees it.
pub struct Reading {
    pub tokens: Seq<Seq<char>>,
    pub foreign: Seq<Foreign>,
    pub others: Seq<Interpolation>,
}

impl View for Parsed {
    type V = Reading;

    open spec fn view(&self) -> Reading {
        Reading {
            tokens: self.tokens@.map_values(|t: Token| t.name@),
            foreign: self.foreign@,
            others: self.others@,
        }
    }
}

/// What one construct contributes, and how far past its start the
/// reading carries on.
pub struct Lexed {
    pub advance: int,
    /// The bytes `[start, end)` that name a placeholder.
    pub token: Option<(int, int)>,
    pub foreign: Option<Foreign>,
    pub other: Option<Interpolation>,
}

// ---------------------------------------------------------------------
// Bytes
// ---------------------------------------------------------------------

pub open spec fn at(b: Seq<u8>, i: int) -> Option<u8> {
    if 0 <= i < b.len() {
        Some(b[i])
    } else {
        None
    }
}

pub open spec fn is_digit(c: u8) -> bool {
    0x30 <= c <= 0x39
}

pub open spec fn is_alphanumeric(c: u8) -> bool {
    is_digit(c) || (0x41 <= c <= 0x5A) || (0x61 <= c <= 0x7A)
}

/// `.`, `-` and `_` are inside a name: `{{user.name}}` and
/// `{{first-name}}` are both ordinary.
pub open spec fn is_name_byte(c: u8) -> bool {
    is_alphanumeric(c) || c == 0x5F || c == 0x2E || c == 0x2D
}

/// ASCII whitespace: space, tab, line feed, form feed, carriage return.
pub open spec fn is_space(c: u8) -> bool {
    c == 0x20 || c == 0x09 || c == 0x0A || c == 0x0C || c == 0x0D
}

pub open spec fn run_end(b: Seq<u8>, i: int) -> int
    decreases b.len() - i,
{
    if 0 <= i < b.len() && is_name_byte(b[i]) {
        run_end(b, i + 1)
    } else {
        i
    }
}

pub open spec fn spec_skip_space(b: Seq<u8>, i: int) -> int
    decreases b.len() - i,
{
    if 0 <= i < b.len() && is_space(b[i]) {
        spec_skip_space(b, i + 1)
    } else {
        i
    }
}

/// Where the name starting at `start` ends, or `None` when no name starts
/// there.
pub open spec fn spec_identifier_end(b: Seq<u8>, start: int) -> Option<int> {
    if 0 <= start < b.len() && (is_alphanumeric(b[start]) || b[start] == 0x5F) {
        Some(run_end(b, start))
    } else {
        None
    }
}

/// How far past `index` the brace opened there closes.
pub open spec fn spec_balanced_from(b: Seq<u8>, i: int, depth: nat, index: int) -> Option<int>
    decreases b.len() - i,
{
    if i < 0 || i >= b.len() {
        None
    } else if b[i] == 0x7B {
        spec_balanced_from(b, i + 1, depth + 1, index)
    } else if b[i] == 0x7D {
        if depth == 0 {
            None
        } else if depth == 1 {
            Some(i + 1 - index)
        } else {
            spec_balanced_from(b, i + 1, (depth - 1) as nat, index)
        }
    } else {
        spec_balanced_from(b, i + 1, depth, index)
    }
}

pub open spec fn spec_balanced(b: Seq<u8>, index: int) -> Option<int> {
    spec_balanced_from(b, index, 0, index)
}

pub open spec fn name_chars(b: Seq<u8>, start: int, end: int) -> Seq<char> {
    b.subrange(start, end).map_values(|c: u8| c as char)
}

pub open spec fn lexed(advance: int) -> Lexed {
    Lexed { advance, token: None, foreign: None, other: None }
}

pub open spec fn lexed_token(advance: int, start: int, end: int) -> Lexed {
    Lexed { advance, token: Some((start, end)), foreign: None, other: None }
}

pub open spec fn lexed_foreign(advance: int, construct: Construct, offset: int) -> Lexed {
    Lexed {
        advance,
        token: None,
        foreign: Some(Foreign { construct, offset: offset as usize }),
        other: None,
    }
}

// ---------------------------------------------------------------------
// The grammar, one construct at a time
// ---------------------------------------------------------------------

/// `{{name}}` — a variable where that is the grammar, and ICU's literal
/// `{` everywhere else.
pub open spec fn spec_double_brace(g: Grammar, b: Seq<u8>, index: int) -> Lexed {
    let start = index + 2;
    if g.interpolation != Interpolation::DoubleBrace {
        lexed(2)
    } else if spec_identifier_end(b, start) is Some && at(b, spec_identifier_end(b, start)->0)
        == Some(0x7Du8) && at(b, spec_identifier_end(b, start)->0 + 1) == Some(0x7Du8) {
        let end = spec_identifier_end(b, start)->0;
        lexed_token(end + 2 - index, start, end)
    } else if !g.trims {
        lexed(2)
    } else {
        let opened = spec_skip_space(b, start);
        match spec_identifier_end(b, opened) {
            None => lexed(2),
            Some(end) => {
                let closing = spec_skip_space(b, end);
                if at(b, closing) == Some(0x7Du8) && at(b, closing + 1) == Some(0x7Du8) {
                    lexed_token(closing + 2 - index, opened, end)
                } else {
                    lexed(2)
                }
            },
        }
    }
}

/// Whether `grammar` reads an interpolation of style `found` as a
/// placeholder. ICU reads `{0}` and `{name}` alike.
pub open spec fn reads(interpolation: Interpolation, found: Interpolation) -> bool {
    match interpolation {
        Interpolation::SingleBrace => true,
        Interpolation::Positional => found == Interpolation::Positional,
        Interpolation::DoubleBrace => false,
    }
}

pub open spec fn all_digits(b: Seq<u8>, start: int, end: int) -> bool {
    forall|k: int| start <= k < end ==> is_digit(#[trigger] b[k])
}

/// `{count, plural, ...}`: one token named for its argument where ICU is
/// native, a foreign construct where it is not. Either way the whole
/// construct is stepped over, so its sub-messages are not read as
/// placeholders of their own.
pub open spec fn spec_icu_argument(
    g: Grammar,
    b: Seq<u8>,
    index: int,
    start: int,
    end: int,
) -> Lexed {
    let advance = match spec_balanced(b, index) {
        Some(n) => n,
        None => 1,
    };
    if !g.icu {
        lexed_foreign(advance, Construct::IcuArgument, index)
    } else {
        lexed_token(advance, start, end)
    }
}

pub open spec fn spec_single_brace(g: Grammar, b: Seq<u8>, index: int) -> Lexed {
    let opened = index + 1;
    let start = if g.trims {
        spec_skip_space(b, opened)
    } else {
        opened
    };
    if at(b, start) == Some(0x24u8) {
        // No library here writes Fluent.
        lexed_foreign(1, Construct::Fluent, index)
    } else {
        match spec_identifier_end(b, start) {
            None => lexed(1),
            Some(end) => {
                let closing = if g.trims {
                    spec_skip_space(b, end)
                } else {
                    end
                };
                if at(b, closing) == Some(0x2Cu8) {
                    spec_icu_argument(g, b, index, start, end)
                } else if at(b, closing) != Some(0x7Du8) {
                    lexed(1)
                } else {
                    let found = if all_digits(b, start, end) {
                        Interpolation::Positional
                    } else {
                        Interpolation::SingleBrace
                    };
                    if reads(g.interpolation, found) {
                        lexed_token(closing + 1 - index, start, end)
                    } else {
                        Lexed { advance: closing + 1 - index, token: None, foreign: None, other: Some(found) }
                    }
                }
            },
        }
    }
}

pub open spec fn is_conversion(c: u8) -> bool {
    // s d i u f F g G e E x X o c
    c == 0x73 || c == 0x64 || c == 0x69 || c == 0x75 || c == 0x66 || c == 0x46 || c == 0x67
        || c == 0x47 || c == 0x65 || c == 0x45 || c == 0x78 || c == 0x58 || c == 0x6F || c
        == 0x63
}

pub open spec fn digits_end(b: Seq<u8>, i: int) -> int
    decreases b.len() - i,
{
    if 0 <= i < b.len() && is_digit(b[i]) {
        digits_end(b, i + 1)
    } else {
        i
    }
}

/// `%s`, `%d`, `%1$s` — a conversion straight after the `%`, or a
/// positional argument before it. Flags, width and precision are not
/// read: Hungarian writes "90%-os".
pub open spec fn spec_percent(b: Seq<u8>, index: int) -> Lexed {
    let digits = index + 1;
    let after = digits_end(b, digits);
    let cursor = if after > digits {
        after + 1
    } else {
        after
    };
    if after > digits && at(b, after) != Some(0x24u8) {
        lexed(1)
    } else if at(b, cursor) is Some && is_conversion(at(b, cursor)->0) {
        lexed_foreign(1, Construct::Printf, index)
    } else {
        lexed(1)
    }
}

/// `${...}`, and `$t(` where nesting is not this library's.
pub open spec fn spec_dollar(g: Grammar, b: Seq<u8>, index: int) -> Lexed {
    if at(b, index + 1) == Some(0x7Bu8) {
        lexed_foreign(2, Construct::TemplateLiteral, index)
    } else if at(b, index + 1) == Some(0x74u8) && at(b, index + 2) == Some(0x28u8) {
        if !g.nesting {
            lexed_foreign(3, Construct::Nesting, index)
        } else {
            lexed(3)
        }
    } else {
        lexed(1)
    }
}

/// The construct starting at `index`.
pub open spec fn spec_step(g: Grammar, b: Seq<u8>, index: int) -> Lexed {
    let c = b[index];
    let next = at(b, index + 1);
    if c == 0x7B && next == Some(0x7Bu8) {
        spec_double_brace(g, b, index)
    } else if c == 0x7B {
        spec_single_brace(g, b, index)
    } else if c == 0x7D && next == Some(0x7Du8) {
        // An ICU literal `}`, stepped over as a pair.
        lexed(2)
    } else if c == 0x25 && next == Some(0x25u8) {
        // A literal percent.
        lexed(2)
    } else if c == 0x25 {
        spec_percent(b, index)
    } else if c == 0x24 {
        spec_dollar(g, b, index)
    } else {
        lexed(1)
    }
}

/// What one construct adds to the reading so far.
pub open spec fn apply(b: Seq<u8>, r: Reading, l: Lexed) -> Reading {
    Reading {
        tokens: match l.token {
            Some((start, end)) => r.tokens.push(name_chars(b, start, end)),
            None => r.tokens,
        },
        foreign: match l.foreign {
            Some(f) => r.foreign.push(f),
            None => r.foreign,
        },
        others: match l.other {
            Some(o) => if r.others.contains(o) {
                r.others
            } else {
                r.others.push(o)
            },
            None => r.others,
        },
    }
}

pub proof fn lemma_run_end(b: Seq<u8>, i: int)
    requires
        0 <= i <= b.len(),
    ensures
        i <= run_end(b, i) <= b.len(),
        forall|k: int| i <= k < run_end(b, i) ==> is_name_byte(#[trigger] b[k]),
        run_end(b, i) < b.len() ==> !is_name_byte(b[run_end(b, i)]),
    decreases b.len() - i,
{
    if i < b.len() && is_name_byte(b[i]) {
        lemma_run_end(b, i + 1);
    }
}

pub proof fn lemma_skip_space(b: Seq<u8>, i: int)
    requires
        0 <= i <= b.len(),
    ensures
        i <= spec_skip_space(b, i) <= b.len(),
        forall|k: int| i <= k < spec_skip_space(b, i) ==> is_space(#[trigger] b[k]),
        spec_skip_space(b, i) < b.len() ==> !is_space(b[spec_skip_space(b, i)]),
    decreases b.len() - i,
{
    if i < b.len() && is_space(b[i]) {
        lemma_skip_space(b, i + 1);
    }
}

pub proof fn lemma_digits_end(b: Seq<u8>, i: int)
    requires
        0 <= i <= b.len(),
    ensures
        i <= digits_end(b, i) <= b.len(),
        forall|k: int| i <= k < digits_end(b, i) ==> is_digit(#[trigger] b[k]),
    decreases b.len() - i,
{
    if i < b.len() && is_digit(b[i]) {
        lemma_digits_end(b, i + 1);
    }
}

pub proof fn lemma_balanced(b: Seq<u8>, i: int, depth: nat, index: int)
    requires
        index <= i,
    ensures
        spec_balanced_from(b, i, depth, index) matches Some(n) ==> 1 <= n && index + n <= b.len(),
    decreases b.len() - i,
{
    if i < 0 || i >= b.len() {
    } else if b[i] == 0x7B {
        lemma_balanced(b, i + 1, depth + 1, index);
    } else if b[i] == 0x7D {
        if depth > 1 {
            lemma_balanced(b, i + 1, (depth - 1) as nat, index);
        }
    } else {
        lemma_balanced(b, i + 1, depth, index);
    }
}

/// Every construct moves the reading forward, and never past the end by
/// more than it read.
pub proof fn lemma_step_advances(g: Grammar, b: Seq<u8>, index: int)
    requires
        0 <= index < b.len(),
    ensures
        spec_step(g, b, index).advance >= 1,
        index + spec_step(g, b, index).advance <= b.len(),
{
    lemma_run_end(b, index + 1);
    lemma_skip_space(b, index + 1);
    if index + 2 <= b.len() {
        lemma_run_end(b, index + 2);
        lemma_skip_space(b, index + 2);
        let opened = spec_skip_space(b, index + 2);
        lemma_run_end(b, opened);
        lemma_skip_space(b, run_end(b, opened));
    }
    let opened = spec_skip_space(b, index + 1);
    lemma_run_end(b, opened);
    lemma_skip_space(b, run_end(b, opened));
    lemma_skip_space(b, run_end(b, index + 1));
    lemma_balanced(b, index, 0, index);
}

/// The reading of `b` from `i` on, added to `r`.
pub open spec fn spec_scan(g: Grammar, b: Seq<u8>, i: int, r: Reading) -> Reading
    decreases b.len() - i,
{
    if i < 0 || i >= b.len() {
        r
    } else {
        let l = spec_step(g, b, i);
        proof {
            lemma_step_advances(g, b, i);
        }
        spec_scan(g, b, i + l.advance, apply(b, r, l))
    }
}

pub open spec fn empty_reading() -> Reading {
    Reading { tokens: seq![], foreign: seq![], others: seq![] }
}

/// Every placeholder in one message, and everything in it that is not
/// one, under grammar `g`.
pub open spec fn spec_parse(g: Grammar, text: Seq<char>) -> Reading {
    spec_scan(g, utf8(text), 0, empty_reading())
}

// ---------------------------------------------------------------------
// The lexer
// ---------------------------------------------------------------------

fn byte_at(bytes: &[u8], i: usize) -> (r: Option<u8>)
    ensures
        r == at(bytes@, i as int),
{
    if i < bytes.len() {
        Some(bytes[i])
    } else {
        None
    }
}

/// Where the name starting at `start` ends, if one starts there.
pub fn identifier_end(bytes: &[u8], start: usize) -> (r: Option<usize>)
    requires
        start <= bytes@.len(),
    ensures
        r matches Some(e) ==> spec_identifier_end(bytes@, start as int) == Some(e as int),
        r is None ==> spec_identifier_end(bytes@, start as int) is None,
{
    if start >= bytes.len() {
        return None;
    }
    let first = bytes[start];
    if !(is_ascii_alphanumeric(first) || first == 0x5Fu8) {
        return None;
    }
    let mut end = start;
    while end < bytes.len() && is_name(bytes[end])
        invariant
            start <= end <= bytes@.len(),
            run_end(bytes@, start as int) == run_end(bytes@, end as int),
        decreases bytes@.len() - end,
    {
        end += 1;
    }
    Some(end)
}

fn is_ascii_alphanumeric(c: u8) -> (r: bool)
    ensures
        r == is_alphanumeric(c),
{
    (0x30 <= c && c <= 0x39) || (0x41 <= c && c <= 0x5A) || (0x61 <= c && c <= 0x7A)
}

fn is_name(c: u8) -> (r: bool)
    ensures
        r == is_name_byte(c),
{
    is_ascii_alphanumeric(c) || c == 0x5F || c == 0x2E || c == 0x2D
}

pub fn skip_space(bytes: &[u8], index: usize) -> (r: usize)
    requires
        index <= bytes@.len(),
    ensures
        r == spec_skip_space(bytes@, index as int),
{
    let mut i = index;
    while i < bytes.len() && (bytes[i] == 0x20 || bytes[i] == 0x09 || bytes[i] == 0x0A || bytes[i]
        == 0x0C || bytes[i] == 0x0D)
        invariant
            index <= i <= bytes@.len(),
            spec_skip_space(bytes@, index as int) == spec_skip_space(bytes@, i as int),
        decreases bytes@.len() - i,
    {
        i += 1;
    }
    i
}

/// The name between two byte offsets, all of whose bytes are ASCII.
pub fn name(bytes: &[u8], start: usize, end: usize) -> (r: String)
    requires
        start <= end <= bytes@.len(),
    ensures
        r@ == name_chars(bytes@, start as int, end as int),
{
    let mut r = String::new();
    let mut i = start;
    while i < end
        invariant
            start <= i <= end <= bytes@.len(),
            r@ == name_chars(bytes@, start as int, i as int),
        decreases end - i,
    {
        let ghost before = r@;
        push_char(&mut r, bytes[i] as char);
        assert(r@ =~= name_chars(bytes@, start as int, (i + 1) as int));
        i += 1;
    }
    r
}

/// Whether every byte in `[start, end)` is a digit.
fn digits_only(bytes: &[u8], start: usize, end: usize) -> (r: bool)
    requires
        start <= end <= bytes@.len(),
    ensures
        r == all_digits(bytes@, start as int, end as int),
{
    let mut i = start;
    while i < end
        invariant
            start <= i <= end <= bytes@.len(),
            forall|k: int| start <= k < i ==> is_digit(#[trigger] bytes@[k]),
        decreases end - i,
    {
        if !(0x30 <= bytes[i] && bytes[i] <= 0x39) {
            return false;
        }
        i += 1;
    }
    true
}

/// How far past `index` the brace opened there closes, or `None` when it
/// never does.
pub fn balanced(bytes: &[u8], index: usize) -> (r: Option<usize>)
    requires
        index <= bytes@.len(),
    ensures
        r matches Some(n) ==> spec_balanced(bytes@, index as int) == Some(n as int),
        r is None ==> spec_balanced(bytes@, index as int) is None,
{
    let mut depth: usize = 0;
    let mut i = index;
    while i < bytes.len()
        invariant
            index <= i <= bytes@.len(),
            depth <= i - index,
            spec_balanced(bytes@, index as int) == spec_balanced_from(
                bytes@,
                i as int,
                depth as nat,
                index as int,
            ),
        decreases bytes@.len() - i,
    {
        let byte = bytes[i];
        if byte == 0x7B {
            depth += 1;
        } else if byte == 0x7D {
            // `checked_sub`, not `-=`: a lexer is not the place to leave
            // a panic resting on a caller's manners.
            if depth == 0 {
                return None;
            }
            depth -= 1;
            if depth == 0 {
                return Some(i + 1 - index);
            }
        }
        i += 1;
    }
    None
}

fn record(parsed: &mut Parsed, bytes: &[u8], l: Ghost<Lexed>, start: usize, end: usize)
    requires
        start <= end <= bytes@.len(),
        l@.token == Some((start as int, end as int)),
        l@.foreign is None,
        l@.other is None,
    ensures
        final(parsed)@ == apply(bytes@, old(parsed)@, l@),
{
    let token = Token { name: name(bytes, start, end) };
    parsed.tokens.push(token);
    assert(parsed@.tokens =~= old(parsed)@.tokens.push(name_chars(bytes@, start as int, end as int)));
}

fn record_foreign(parsed: &mut Parsed, bytes: &[u8], l: Ghost<Lexed>, construct: Construct, index: usize)
    requires
        l@.foreign == Some(Foreign { construct, offset: index }),
        l@.token is None,
        l@.other is None,
    ensures
        final(parsed)@ == apply(bytes@, old(parsed)@, l@),
{
    parsed.foreign.push(Foreign { construct, offset: index });
    assert(parsed@.tokens =~= old(parsed)@.tokens);
}

pub fn double_brace(bytes: &[u8], index: usize, grammar: Grammar, parsed: &mut Parsed) -> (r: usize)
    requires
        index + 1 < bytes@.len(),
    ensures
        r == spec_double_brace(grammar, bytes@, index as int).advance,
        final(parsed)@ == apply(bytes@, old(parsed)@, spec_double_brace(grammar, bytes@, index as int)),
{
    let total = bytes.len();
    let ghost l = spec_double_brace(grammar, bytes@, index as int);
    if grammar.interpolation != Interpolation::DoubleBrace {
        assert(parsed@ == apply(bytes@, parsed@, l));
        return 2;
    }
    let start = index + 2;
    if let Some(end) = identifier_end(bytes, start) {
        proof {
            lemma_run_end(bytes@, start as int);
        }
        if byte_at(bytes, end) == Some(0x7Du8) && byte_at(bytes, end + 1) == Some(0x7Du8) {
            record(parsed, bytes, Ghost(l), start, end);
            return end + 2 - index;
        }
    }
    if !grammar.trims {
        assert(parsed@ == apply(bytes@, parsed@, l));
        return 2;
    }
    // `{{ name }}`. i18next trims, so this is the variable `name`.
    let opened = skip_space(bytes, start);
    proof {
        lemma_skip_space(bytes@, start as int);
    }
    let end = match identifier_end(bytes, opened) {
        Some(end) => end,
        None => {
            assert(parsed@ == apply(bytes@, parsed@, l));
            return 2;
        },
    };
    proof {
        lemma_run_end(bytes@, opened as int);
        lemma_skip_space(bytes@, end as int);
    }
    let closing = skip_space(bytes, end);
    if !(byte_at(bytes, closing) == Some(0x7Du8) && byte_at(bytes, closing + 1) == Some(0x7Du8)) {
        assert(parsed@ == apply(bytes@, parsed@, l));
        return 2;
    }
    record(parsed, bytes, Ghost(l), opened, end);
    closing + 2 - index
}

pub fn single_brace(bytes: &[u8], index: usize, grammar: Grammar, parsed: &mut Parsed) -> (r: usize)
    requires
        index < bytes@.len(),
    ensures
        r == spec_single_brace(grammar, bytes@, index as int).advance,
        final(parsed)@ == apply(bytes@, old(parsed)@, spec_single_brace(grammar, bytes@, index as int)),
{
    let total = bytes.len();
    let ghost l = spec_single_brace(grammar, bytes@, index as int);
    let opened = index + 1;
    let start = if grammar.trims {
        skip_space(bytes, opened)
    } else {
        opened
    };
    proof {
        lemma_skip_space(bytes@, opened as int);
    }
    if byte_at(bytes, start) == Some(0x24u8) {
        record_foreign(parsed, bytes, Ghost(l), Construct::Fluent, index);
        return 1;
    }
    let end = match identifier_end(bytes, start) {
        Some(end) => end,
        None => {
            assert(parsed@ == apply(bytes@, parsed@, l));
            return 1;
        },
    };
    proof {
        lemma_run_end(bytes@, start as int);
        lemma_skip_space(bytes@, end as int);
    }
    let closing = if grammar.trims {
        skip_space(bytes, end)
    } else {
        end
    };
    if byte_at(bytes, closing) == Some(0x2Cu8) {
        return icu_argument(bytes, index, start, end, grammar, parsed);
    }
    if byte_at(bytes, closing) != Some(0x7Du8) {
        assert(parsed@ == apply(bytes@, parsed@, l));
        return 1;
    }
    let digits = digits_only(bytes, start, end);
    let found = if digits {
        Interpolation::Positional
    } else {
        Interpolation::SingleBrace
    };
    // A `match` rather than a comparison, so a library written in a
    // fourth interpolation style fails the build here instead of
    // silently reading none of its placeholders.
    let reads = match grammar.interpolation {
        Interpolation::SingleBrace => true,
        Interpolation::Positional => found == Interpolation::Positional,
        Interpolation::DoubleBrace => false,
    };
    if reads {
        record(parsed, bytes, Ghost(l), start, end);
        return closing + 1 - index;
    }
    // Not this library's interpolation. On its own that is prose, so it
    // is recorded rather than reported.
    if !contains_style(&parsed.others, found) {
        parsed.others.push(found);
    }
    assert(parsed@.tokens =~= old(parsed)@.tokens);
    closing + 1 - index
}

fn contains_style(others: &Vec<Interpolation>, style: Interpolation) -> (r: bool)
    ensures
        r == others@.contains(style),
{
    let mut i: usize = 0;
    while i < others.len()
        invariant
            0 <= i <= others@.len(),
            forall|j: int| 0 <= j < i ==> others@[j] != style,
        decreases others@.len() - i,
    {
        if others[i] == style {
            assert(others@[i as int] == style);
            return true;
        }
        i += 1;
    }
    false
}

/// `{count, plural, one {# item} other {# items}}`.
pub fn icu_argument(
    bytes: &[u8],
    index: usize,
    start: usize,
    end: usize,
    grammar: Grammar,
    parsed: &mut Parsed,
) -> (r: usize)
    requires
        index < start <= end <= bytes@.len(),
    ensures
        r == spec_icu_argument(grammar, bytes@, index as int, start as int, end as int).advance,
        final(parsed)@ == apply(
            bytes@,
            old(parsed)@,
            spec_icu_argument(grammar, bytes@, index as int, start as int, end as int),
        ),
{
    let ghost l = spec_icu_argument(grammar, bytes@, index as int, start as int, end as int);
    let advance = match balanced(bytes, index) {
        Some(n) => n,
        None => 1,
    };
    if !grammar.icu {
        record_foreign(parsed, bytes, Ghost(l), Construct::IcuArgument, index);
        return advance;
    }
    record(parsed, bytes, Ghost(l), start, end);
    advance
}

/// `%s`, `%d`, `%1$s`, and nothing else.
pub fn percent(bytes: &[u8], index: usize, parsed: &mut Parsed) -> (r: usize)
    requires
        index < bytes@.len(),
    ensures
        r == spec_percent(bytes@, index as int).advance,
        final(parsed)@ == apply(bytes@, old(parsed)@, spec_percent(bytes@, index as int)),
{
    let total = bytes.len();
    let ghost l = spec_percent(bytes@, index as int);
    let mut cursor = index + 1;
    let digits = cursor;
    while cursor < bytes.len() && 0x30 <= bytes[cursor] && bytes[cursor] <= 0x39
        invariant
            digits <= cursor <= bytes@.len(),
            digits == index + 1,
            digits_end(bytes@, digits as int) == digits_end(bytes@, cursor as int),
        decreases bytes@.len() - cursor,
    {
        cursor += 1;
    }
    if cursor > digits {
        if byte_at(bytes, cursor) != Some(0x24u8) {
            assert(parsed@ == apply(bytes@, parsed@, l));
            return 1;
        }
        cursor += 1;
    }
    let conversion = match byte_at(bytes, cursor) {
        Some(c) => c == 0x73 || c == 0x64 || c == 0x69 || c == 0x75 || c == 0x66 || c == 0x46
            || c == 0x67 || c == 0x47 || c == 0x65 || c == 0x45 || c == 0x78 || c == 0x58 || c
            == 0x6F || c == 0x63,
        None => false,
    };
    if !conversion {
        assert(parsed@ == apply(bytes@, parsed@, l));
        return 1;
    }
    record_foreign(parsed, bytes, Ghost(l), Construct::Printf, index);
    1
}

pub fn dollar(bytes: &[u8], index: usize, grammar: Grammar, parsed: &mut Parsed) -> (r: usize)
    requires
        index < bytes@.len(),
    ensures
        r == spec_dollar(grammar, bytes@, index as int).advance,
        final(parsed)@ == apply(bytes@, old(parsed)@, spec_dollar(grammar, bytes@, index as int)),
{
    let total = bytes.len();
    let ghost l = spec_dollar(grammar, bytes@, index as int);
    if byte_at(bytes, index + 1) == Some(0x7Bu8) {
        record_foreign(parsed, bytes, Ghost(l), Construct::TemplateLiteral, index);
        return 2;
    }
    if byte_at(bytes, index + 1) == Some(0x74u8) && byte_at(bytes, index + 2) == Some(0x28u8) {
        // **The construct that made the guessing core refuse twenty-five
        // real catalogues.** Where nesting is native it is a key
        // reference, and the scan continues past it so an interpolation
        // inside the referenced key still counts.
        if !grammar.nesting {
            record_foreign(parsed, bytes, Ghost(l), Construct::Nesting, index);
        } else {
            assert(parsed@ == apply(bytes@, parsed@, l));
        }
        return 3;
    }
    assert(parsed@ == apply(bytes@, parsed@, l));
    1
}

/// Every placeholder in one message, and everything in it that is not
/// one.
pub fn parse(grammar: Grammar, text: &str) -> (r: Parsed)
    ensures
        r@ == spec_parse(grammar, text@),
{
    let bytes = text.as_bytes();
    let mut parsed = Parsed { tokens: Vec::new(), foreign: Vec::new(), others: Vec::new() };
    proof {
        assert(parsed@.tokens =~= seq![]);
    }
    let total = bytes.len();
    let mut index: usize = 0;
    while index < bytes.len()
        invariant
            total == bytes@.len(),
            bytes@ == utf8(text@),
            index <= bytes@.len(),
            spec_parse(grammar, text@) == spec_scan(grammar, bytes@, index as int, parsed@),
        decreases bytes@.len() - index,
    {
        proof {
            lemma_step_advances(grammar, bytes@, index as int);
        }
        let ghost before = parsed@;
        let ghost l = spec_step(grammar, bytes@, index as int);
        let c = bytes[index];
        let next = byte_at(bytes, index + 1);
        let advanced = if c == 0x7B && next == Some(0x7Bu8) {
            double_brace(bytes, index, grammar, &mut parsed)
        } else if c == 0x7B {
            single_brace(bytes, index, grammar, &mut parsed)
        } else if c == 0x7D && next == Some(0x7Du8) {
            2
        } else if c == 0x25 && next == Some(0x25u8) {
            2
        } else if c == 0x25 {
            percent(bytes, index, &mut parsed)
        } else if c == 0x24 {
            dollar(bytes, index, grammar, &mut parsed)
        } else {
            1
        };
        proof {
            if !(c == 0x7B || c == 0x25 || c == 0x24) {
                assert(parsed@ == apply(bytes@, before, l));
            }
        }
        index += advanced;
    }
    parsed
}

// ---------------------------------------------------------------------
// Plural keys
// ---------------------------------------------------------------------

/// The CLDR categories a key-suffix plural model writes.
pub open spec fn plural_suffixes() -> Seq<&'static str> {
    seq!["_zero", "_one", "_two", "_few", "_many", "_other"]
}

pub open spec fn has_suffix(k: Seq<u8>, s: Seq<u8>) -> bool {
    s.len() <= k.len() && k.subrange(k.len() - s.len(), k.len() as int) == s
}

/// The first suffix in `suffixes[from..]` that `k` ends with, stripped.
pub open spec fn strip_first(k: Seq<u8>, suffixes: Seq<&'static str>, from: int) -> Seq<u8>
    decreases suffixes.len() - from,
{
    if from < 0 || from >= suffixes.len() {
        k
    } else if has_suffix(k, utf8(suffixes[from]@)) {
        k.subrange(0, k.len() - utf8(suffixes[from]@).len())
    } else {
        strip_first(k, suffixes, from + 1)
    }
}

/// A key's plural base: the key without the first CLDR suffix it ends
/// with, or the key itself.
pub open spec fn spec_plural_base(k: Seq<u8>) -> Seq<u8> {
    strip_first(k, plural_suffixes(), 0)
}

fn suffixes() -> (r: Vec<&'static str>)
    ensures
        r@ == plural_suffixes(),
{
    let mut r = Vec::new();
    r.push("_zero");
    r.push("_one");
    r.push("_two");
    r.push("_few");
    r.push("_many");
    r.push("_other");
    assert(r@ =~= plural_suffixes());
    r
}

/// A key's plural base, where the library writes plurals as suffixes.
///
/// Polish needs `_few`, Japanese needs only `_other`, and English needs
/// `_one` and `_other`. Requiring the source's exact variant set would
/// report a finding on every correctly translated plural. A base key
/// that genuinely ends `_one` is folded too; that only ever relaxes a
/// check.
pub fn plural_base(key: &str) -> (r: &str)
    ensures
        utf8(r@) == spec_plural_base(utf8(key@)),
{
    let bytes = key.as_bytes();
    let all = suffixes();
    let mut i: usize = 0;
    while i < all.len()
        invariant
            all@ == plural_suffixes(),
            bytes@ == utf8(key@),
            0 <= i <= all@.len(),
            spec_plural_base(bytes@) == strip_first(bytes@, all@, i as int),
        decreases all@.len() - i,
    {
        let suffix = all[i].as_bytes();
        if ends_with(bytes, suffix) {
            let cut = bytes.len() - suffix.len();
            proof {
                reveal_strlit("_zero");
                reveal_strlit("_one");
                reveal_strlit("_two");
                reveal_strlit("_few");
                reveal_strlit("_many");
                reveal_strlit("_other");
                lemma_ascii_encoding(all@[i as int]@);
                assert(suffix@[0] == 0x5Fu8);
                assert(bytes@[cut as int] == suffix@[0]);
            }
            return substring(key, 0, cut);
        }
        i += 1;
    }
    assert(bytes@.subrange(0, bytes@.len() as int) =~= bytes@);
    key
}

/// An ASCII text's encoding is its characters, byte for byte.
pub proof fn lemma_ascii_encoding(s: Seq<char>)
    requires
        vstd::utf8::is_ascii_chars(s),
    ensures
        utf8(s).len() == s.len(),
        forall|i: int| 0 <= i < s.len() ==> #[trigger] utf8(s)[i] == s[i] as u8,
{
    vstd::utf8::is_ascii_chars_encode_utf8(s);
}

// ---------------------------------------------------------------------
// Identification: grammar-free predicates, used only to answer "which
// library wrote this". Nothing here reads a message in order to report
// something about it.
// ---------------------------------------------------------------------

/// What a single `{` opens, read with no grammar in hand.
pub open spec fn spec_brace_mark(b: Seq<u8>, index: int) -> Option<Mark> {
    let start = spec_skip_space(b, index + 1);
    match spec_identifier_end(b, start) {
        None => None,
        Some(end) => {
            let closing = spec_skip_space(b, end);
            if at(b, closing) == Some(0x2Cu8) {
                Some(Mark::IcuArgument)
            } else if at(b, closing) == Some(0x7Du8) && all_digits(b, start, end) {
                Some(Mark::Positional)
            } else if at(b, closing) == Some(0x7Du8) {
                Some(Mark::SingleBrace)
            } else {
                None
            }
        },
    }
}

/// The mark starting at `index`, if any, and how far past it to carry on.
pub open spec fn spec_mark_at(b: Seq<u8>, index: int) -> (Option<Mark>, int) {
    if b[index] == 0x7B && at(b, index + 1) == Some(0x7Bu8) {
        let opened = spec_skip_space(b, index + 2);
        (
            if spec_identifier_end(b, opened) is Some {
                Some(Mark::DoubleBrace)
            } else {
                None
            },
            2,
        )
    } else if b[index] == 0x7B {
        (spec_brace_mark(b, index), 1)
    } else if b[index] == 0x24 && at(b, index + 1) == Some(0x74u8) && at(b, index + 2) == Some(
        0x28u8,
    ) {
        (Some(Mark::DollarT), 3)
    } else {
        (None, 1)
    }
}

/// The marks of `b` from `i` on, added to `found` in discovery order.
pub open spec fn spec_marks_from(b: Seq<u8>, i: int, found: Seq<Mark>) -> Seq<Mark>
    decreases b.len() - i,
{
    if i < 0 || i >= b.len() {
        found
    } else {
        let (mark, advance) = spec_mark_at(b, i);
        let next = match mark {
            Some(m) => if found.contains(m) {
                found
            } else {
                found.push(m)
            },
            None => found,
        };
        if advance >= 1 {
            spec_marks_from(b, i + advance, next)
        } else {
            next
        }
    }
}

/// The syntactic marks a message carries, read with no grammar in hand,
/// each once and in the order first seen.
pub open spec fn spec_marks(text: Seq<char>) -> Seq<Mark> {
    spec_marks_from(utf8(text), 0, seq![])
}

pub fn brace_mark(bytes: &[u8], index: usize) -> (r: Option<Mark>)
    requires
        index < bytes@.len(),
    ensures
        r == spec_brace_mark(bytes@, index as int),
{
    let total = bytes.len();
    let start = skip_space(bytes, index + 1);
    proof {
        lemma_skip_space(bytes@, index + 1);
    }
    let end = match identifier_end(bytes, start) {
        Some(end) => end,
        None => return None,
    };
    proof {
        lemma_run_end(bytes@, start as int);
    }
    let closing = skip_space(bytes, end);
    let at_closing = byte_at(bytes, closing);
    if at_closing == Some(0x2Cu8) {
        Some(Mark::IcuArgument)
    } else if at_closing == Some(0x7Du8) && digits_only(bytes, start, end) {
        Some(Mark::Positional)
    } else if at_closing == Some(0x7Du8) {
        Some(Mark::SingleBrace)
    } else {
        None
    }
}

pub fn mark_at(bytes: &[u8], index: usize) -> (r: (Option<Mark>, usize))
    requires
        index < bytes@.len(),
    ensures
        (r.0, r.1 as int) == spec_mark_at(bytes@, index as int),
{
    let total = bytes.len();
    let next = byte_at(bytes, index + 1);
    if bytes[index] == 0x7B && next == Some(0x7Bu8) {
        let opened = skip_space(bytes, index + 2);
        proof {
            lemma_skip_space(bytes@, index + 2);
        }
        let mark = match identifier_end(bytes, opened) {
            Some(_) => Some(Mark::DoubleBrace),
            None => None,
        };
        (mark, 2)
    } else if bytes[index] == 0x7B {
        (brace_mark(bytes, index), 1)
    } else if bytes[index] == 0x24 && next == Some(0x74u8) && byte_at(bytes, index + 2) == Some(
        0x28u8,
    ) {
        (Some(Mark::DollarT), 3)
    } else {
        (None, 1)
    }
}

/// The marks are a set held in discovery order: `mark` joins `found`
/// unless it is already there.
pub fn note(found: &mut Vec<Mark>, mark: Mark)
    ensures
        final(found)@ == if old(found)@.contains(mark) {
            old(found)@
        } else {
            old(found)@.push(mark)
        },
{
    let mut i: usize = 0;
    while i < found.len()
        invariant
            0 <= i <= found@.len(),
            found@ == old(found)@,
            forall|j: int| 0 <= j < i ==> found@[j] != mark,
        decreases found@.len() - i,
    {
        if found[i] == mark {
            assert(found@[i as int] == mark);
            return;
        }
        i += 1;
    }
    found.push(mark);
}

/// The syntactic marks a message carries, read with no grammar in hand.
///
/// Deliberately generous where the audit is strict: a mark is a vote
/// towards a library, and a wrong vote is outvoted by the other evidence
/// classes. A wrong *finding* has no such safety net, which is why the
/// two scans are separate functions.
pub fn marks(text: &str) -> (r: Vec<Mark>)
    ensures
        r@ == spec_marks(text@),
{
    let bytes = text.as_bytes();
    let total = bytes.len();
    let mut found: Vec<Mark> = Vec::new();
    let mut index: usize = 0;
    while index < bytes.len()
        invariant
            total == bytes@.len(),
            bytes@ == utf8(text@),
            index <= bytes@.len(),
            spec_marks(text@) == spec_marks_from(bytes@, index as int, found@),
        decreases bytes@.len() - index,
    {
        let (mark, advanced) = mark_at(bytes, index);
        if let Some(mark) = mark {
            note(&mut found, mark);
        }
        if advanced >= total - index {
            index = total;
        } else {
            index += advanced;
        }
    }
    found
}

/// `key` is folded: it ends with a plural suffix.
pub open spec fn folded(key: Seq<u8>) -> bool {
    spec_plural_base(key) != key
}

/// A plural base is a prefix of its key.
pub proof fn lemma_strip_first_prefix(k: Seq<u8>, suffixes: Seq<&'static str>, from: int)
    ensures
        strip_first(k, suffixes, from).len() <= k.len(),
        strip_first(k, suffixes, from) == k.subrange(0, strip_first(k, suffixes, from).len() as int),
    decreases suffixes.len() - from,
{
    if from < 0 || from >= suffixes.len() {
        assert(k.subrange(0, k.len() as int) =~= k);
    } else if has_suffix(k, utf8(suffixes[from]@)) {
    } else {
        lemma_strip_first_prefix(k, suffixes, from + 1);
    }
}

/// Two keys among the first `n` are variants agreeing on a base.
pub open spec fn family_within(keys: Seq<&str>, n: int) -> bool {
    exists|i: int, j: int|
        0 <= i < j < n && folded(utf8(keys[i]@)) && folded(utf8(keys[j]@)) && spec_plural_base(
            utf8(keys[i]@),
        ) == spec_plural_base(utf8(keys[j]@))
}

/// Two keys in the set are variants agreeing on a base: `item_one`
/// beside `item_other`. One variant alone is not a family — `step_one`
/// is an ordinary key in every project that numbers its steps.
pub open spec fn plural_family(keys: Seq<&str>) -> bool {
    family_within(keys, keys.len() as int)
}

/// The bases of the folded keys among the first `n`, in order.
pub open spec fn folded_bases(keys: Seq<&str>, n: int) -> Seq<Seq<u8>>
    decreases n,
{
    if n <= 0 {
        seq![]
    } else if folded(utf8(keys[n - 1]@)) {
        folded_bases(keys, n - 1).push(spec_plural_base(utf8(keys[n - 1]@)))
    } else {
        folded_bases(keys, n - 1)
    }
}

pub proof fn lemma_folded_bases(keys: Seq<&str>, n: int, x: Seq<u8>)
    requires
        0 <= n,
    ensures
        folded_bases(keys, n).contains(x) <==> exists|i: int|
            0 <= i < n && folded(utf8(keys[i]@)) && spec_plural_base(utf8(keys[i]@)) == x,
    decreases n,
{
    if n > 0 {
        lemma_folded_bases(keys, n - 1, x);
        let prev = folded_bases(keys, n - 1);
        if folded(utf8(keys[n - 1]@)) {
            assert(folded_bases(keys, n) == prev.push(spec_plural_base(utf8(keys[n - 1]@))));
            if prev.contains(x) {
                let k = choose|k: int| 0 <= k < prev.len() && prev[k] == x;
                assert(folded_bases(keys, n)[k] == x);
            }
            if folded_bases(keys, n).contains(x) {
                let k = choose|k: int| 0 <= k < folded_bases(keys, n).len() && folded_bases(keys, n)[k] == x;
                if k < prev.len() {
                    assert(prev[k] == x);
                }
            }
            if spec_plural_base(utf8(keys[n - 1]@)) == x {
                assert(folded_bases(keys, n)[prev.len() as int] == x);
            }
        }
    }
}

pub fn has_plural_family(keys: &[&str]) -> (r: bool)
    ensures
        r == plural_family(keys@),
{
    let mut bases: Vec<&str> = Vec::new();
    let mut j: usize = 0;
    while j < keys.len()
        invariant
            0 <= j <= keys@.len(),
            bases@.map_values(|b: &str| utf8(b@)) == folded_bases(keys@, j as int),
            !family_within(keys@, j as int),
        decreases keys@.len() - j,
    {
        let key = keys[j];
        let base = plural_base(key);
        let ghost kb = utf8(key@);
        let ghost bb = utf8(base@);
        let ghost seen = bases@.map_values(|b: &str| utf8(b@));
        proof {
            lemma_strip_first_prefix(kb, plural_suffixes(), 0);
            assert(kb.subrange(0, kb.len() as int) =~= kb);
            assert(keys@[j as int] == key);
            lemma_folded_bases(keys@, j as int, bb);
        }
        if base.as_bytes().len() == key.as_bytes().len() {
            assert(bb =~= kb);
            proof {
                assert(folded_bases(keys@, j + 1) == folded_bases(keys@, j as int));
                assert(!family_within(keys@, j + 1));
            }
            j += 1;
            continue;
        }
        assert(folded(kb));
        let mut m: usize = 0;
        #[verifier::loop_isolation(false)]
        while m < bases.len()
            invariant
                0 <= m <= bases@.len(),
                bb == utf8(base@),
                seen == bases@.map_values(|b: &str| utf8(b@)),
                forall|n: int| 0 <= n < m ==> seen[n] != bb,
            decreases bases@.len() - m,
        {
            let same = crate::text::same(bases[m], base);
            proof {
                crate::text::lemma_utf8_injective(bases@[m as int]@, base@);
            }
            if same {
                proof {
                    assert(seen[m as int] == bb);
                    assert(folded_bases(keys@, j as int).contains(bb));
                    let i = choose|i: int|
                        0 <= i < j && folded(utf8(keys@[i]@)) && spec_plural_base(utf8(keys@[i]@))
                            == bb;
                    assert(family_within(keys@, keys@.len() as int)) by {
                        assert(0 <= i < j < keys@.len() && folded(utf8(keys@[i]@)) && folded(
                            utf8(keys@[j as int]@),
                        ) && spec_plural_base(utf8(keys@[i]@)) == spec_plural_base(
                            utf8(keys@[j as int]@),
                        ));
                    }
                }
                return true;
            }
            m += 1;
        }
        proof {
            assert(!seen.contains(bb));
            assert forall|a: int, c: int|
                0 <= a < c < j + 1 && folded(utf8(keys@[a]@)) && folded(utf8(keys@[c]@))
                    implies spec_plural_base(utf8(keys@[a]@)) != spec_plural_base(
                    utf8(keys@[c]@),
                ) by {
                if c == j {
                    if spec_plural_base(utf8(keys@[a]@)) == bb {
                        assert(folded_bases(keys@, j as int).contains(bb));
                    }
                }
            }
        }
        bases.push(base);
        proof {
            assert(bases@.map_values(|b: &str| utf8(b@)) =~= seen.push(bb));
        }
        j += 1;
    }
    false
}

/// A key starting `@@`: ARB's document metadata.
pub open spec fn is_document_metadata(k: Seq<u8>) -> bool {
    k.len() >= 2 && k[0] == 0x40u8 && k[1] == 0x40u8
}

/// `@name` whose `name` is an ordinary key of the same file: ARB's
/// per-message metadata.
pub open spec fn is_sibling_of(k: Seq<u8>, other: Seq<u8>) -> bool {
    &&& k.len() >= 1 && k[0] == 0x40u8
    &&& !(k.len() >= 2 && k[1] == 0x40u8)
    &&& forall|i: int| 1 <= i < k.len() ==> k[i] != 0x2Eu8
    &&& other == k.subrange(1, k.len() as int)
}

pub open spec fn starts_at(k: Seq<u8>) -> bool {
    k.len() >= 1 && k[0] == 0x40u8
}

/// A key that reads as an English sentence: it has a space and is not
/// metadata.
pub open spec fn is_sentence(k: Seq<u8>) -> bool {
    !starts_at(k) && exists|i: int| 0 <= i < k.len() && k[i] == 0x20u8
}

pub open spec fn sentence_count(keys: Seq<&str>, n: int) -> nat
    decreases n,
{
    if n <= 0 {
        0
    } else {
        sentence_count(keys, n - 1) + if is_sentence(utf8(keys[n - 1]@)) {
            1nat
        } else {
            0nat
        }
    }
}

/// Marks that live in the key set rather than in a message.
pub open spec fn spec_key_marks(keys: Seq<&str>) -> Seq<Mark> {
    let plural: Seq<Mark> = if plural_family(keys) {
        seq![Mark::PluralKeySuffix]
    } else {
        seq![]
    };
    let document = exists|i: int| 0 <= i < keys.len() && is_document_metadata(utf8(keys[i]@));
    let sibling = exists|i: int, j: int|
        0 <= i < keys.len() && 0 <= j < keys.len() && is_sibling_of(utf8(keys[i]@), utf8(keys[j]@));
    let arb = if document && sibling {
        plural.push(Mark::ArbMetadata)
    } else {
        plural
    };
    let sentences = sentence_count(keys, keys.len() as int);
    if sentences * 2 > keys.len() && sentences > 0 {
        arb.push(Mark::SentenceKeys)
    } else {
        arb
    }
}

fn has_space(bytes: &[u8]) -> (r: bool)
    ensures
        r == exists|i: int| 0 <= i < bytes@.len() && bytes@[i] == 0x20u8,
{
    let mut i: usize = 0;
    while i < bytes.len()
        invariant
            0 <= i <= bytes@.len(),
            forall|j: int| 0 <= j < i ==> bytes@[j] != 0x20u8,
        decreases bytes@.len() - i,
    {
        if bytes[i] == 0x20 {
            return true;
        }
        i += 1;
    }
    false
}

fn has_dot_after_first(bytes: &[u8]) -> (r: bool)
    ensures
        r == exists|i: int| 1 <= i < bytes@.len() && bytes@[i] == 0x2Eu8,
{
    let mut i: usize = 1;
    while i < bytes.len()
        invariant
            1 <= i,
            i <= bytes@.len() || bytes@.len() == 0,
            forall|j: int| 1 <= j < i && j < bytes@.len() ==> bytes@[j] != 0x2Eu8,
        decreases bytes@.len() - i,
    {
        if bytes[i] == 0x2E {
            return true;
        }
        i += 1;
    }
    false
}

/// Whether some key starts `@@`.
fn any_document_metadata(keys: &[&str]) -> (r: bool)
    ensures
        r == exists|i: int| 0 <= i < keys@.len() && is_document_metadata(utf8(keys@[i]@)),
{
    let mut i: usize = 0;
    while i < keys.len()
        invariant
            0 <= i <= keys@.len(),
            forall|j: int| 0 <= j < i ==> !is_document_metadata(utf8(keys@[j]@)),
        decreases keys@.len() - i,
    {
        let k = keys[i].as_bytes();
        if k.len() >= 2 && k[0] == 0x40 && k[1] == 0x40 {
            return true;
        }
        i += 1;
    }
    false
}

/// Whether some `@key` has its `key` beside it.
fn any_sibling_metadata(keys: &[&str]) -> (r: bool)
    ensures
        r == exists|i: int, j: int|
            0 <= i < keys@.len() && 0 <= j < keys@.len() && is_sibling_of(
                utf8(keys@[i]@),
                utf8(keys@[j]@),
            ),
{
    let mut i: usize = 0;
    while i < keys.len()
        invariant
            0 <= i <= keys@.len(),
            forall|a: int, b: int|
                0 <= a < i && 0 <= b < keys@.len() ==> !is_sibling_of(
                    utf8(keys@[a]@),
                    utf8(keys@[b]@),
                ),
        decreases keys@.len() - i,
    {
        let k = keys[i].as_bytes();
        if k.len() >= 1 && k[0] == 0x40 && !(k.len() >= 2 && k[1] == 0x40) && !has_dot_after_first(k) {
            let rest = &k[1..k.len()];
            let mut j: usize = 0;
            while j < keys.len()
                invariant
                    0 <= i < keys@.len(),
                    0 <= j <= keys@.len(),
                    k@ == utf8(keys@[i as int]@),
                    rest@ == k@.subrange(1, k@.len() as int),
                    k@.len() >= 1 && k@[0] == 0x40u8 && !(k@.len() >= 2 && k@[1] == 0x40u8),
                    forall|x: int| 1 <= x < k@.len() ==> k@[x] != 0x2Eu8,
                    forall|b: int| 0 <= b < j ==> !is_sibling_of(k@, utf8(keys@[b]@)),
                decreases keys@.len() - j,
            {
                if crate::text::equal_bytes(keys[j].as_bytes(), rest) {
                    assert(is_sibling_of(utf8(keys@[i as int]@), utf8(keys@[j as int]@)));
                    return true;
                }
                j += 1;
            }
        }
        i += 1;
    }
    false
}

/// Marks that live in the key set rather than in a message.
pub fn key_marks(keys: &[&str]) -> (r: Vec<Mark>)
    ensures
        r@ == spec_key_marks(keys@),
{
    let mut found: Vec<Mark> = Vec::new();

    if has_plural_family(keys) {
        found.push(Mark::PluralKeySuffix);
    }

    // ARB: `@@locale` and a `@key` object beside a real `key`.
    if any_document_metadata(keys) && any_sibling_metadata(keys) {
        found.push(Mark::ArbMetadata);
    }

    // VS Code bundles use the English sentence as the key. A dotted
    // identifier never contains a space; a sentence almost always does.
    let mut sentences: usize = 0;
    let mut i: usize = 0;
    while i < keys.len()
        invariant
            0 <= i <= keys@.len(),
            sentences == sentence_count(keys@, i as int),
            sentences <= i,
        decreases keys@.len() - i,
    {
        let k = keys[i].as_bytes();
        if !(k.len() >= 1 && k[0] == 0x40) && has_space(k) {
            sentences += 1;
        }
        i += 1;
    }
    if sentences > 0 && sentences > keys.len() - sentences {
        found.push(Mark::SentenceKeys);
    }
    assert(found@ =~= spec_key_marks(keys@));
    found
}

} // verus!

verus! {

/// The byte a construct of this kind opens with.
pub open spec fn opening_byte(c: Construct) -> u8 {
    match c {
        Construct::IcuArgument | Construct::Fluent => 0x7Bu8,
        Construct::Printf => 0x25u8,
        Construct::TemplateLiteral | Construct::Nesting => 0x24u8,
    }
}

/// A foreign construct as the grammar allows it to be reported: at its
/// opening byte, and never one the grammar itself reads.
pub open spec fn foreign_fits(g: Grammar, b: Seq<u8>, f: Foreign) -> bool {
    &&& (f.offset as int) < b.len()
    &&& b[f.offset as int] == opening_byte(f.construct)
    &&& (g.icu ==> f.construct != Construct::IcuArgument)
    &&& (g.nesting ==> f.construct != Construct::Nesting)
}

/// An interpolation reported as another library's: never the grammar's
/// own style, never `{{name}}`, which is read or left as text, and never
/// under a grammar that reads every brace style as a placeholder.
pub open spec fn other_fits(g: Grammar, o: Interpolation) -> bool {
    o != g.interpolation && o != Interpolation::DoubleBrace && g.interpolation != Interpolation::SingleBrace
}

/// What every reading of `b` read so far, up to byte `i`, holds to.
pub open spec fn reading_fits(g: Grammar, b: Seq<u8>, r: Reading, i: int) -> bool {
    &&& forall|k: int| 0 <= k < r.foreign.len() ==> foreign_fits(g, b, #[trigger] r.foreign[k]) && (r.foreign[k].offset as int) < i
    &&& forall|k: int, m: int| 0 <= k < m < r.foreign.len() ==> (#[trigger] r.foreign[k]).offset < (#[trigger] r.foreign[m]).offset
    &&& forall|k: int| 0 <= k < r.others.len() ==> other_fits(g, #[trigger] r.others[k])
    &&& r.others.no_duplicates()
    &&& forall|k: int| 0 <= k < r.tokens.len() ==> (#[trigger] r.tokens[k]).len() > 0
    &&& forall|k: int| 0 <= k < r.tokens.len() ==> name_within(b, #[trigger] r.tokens[k])
}

/// `name` is a run of the message's own bytes.
pub open spec fn name_within(b: Seq<u8>, name: Seq<char>) -> bool {
    exists|s: int, e: int| 0 <= s < e <= b.len() && name == #[trigger] name_chars(b, s, e)
}

proof fn lemma_step_fits(g: Grammar, b: Seq<u8>, index: int)
    requires
        0 <= index < b.len(),
        b.len() <= usize::MAX,
    ensures
        spec_step(g, b, index).foreign matches Some(f) ==> f.offset as int == index && foreign_fits(g, b, f),
        spec_step(g, b, index).other matches Some(o) ==> other_fits(g, o),
        spec_step(g, b, index).token matches Some((s, e)) ==> 0 <= s < e <= b.len(),
{
    lemma_run_end(b, index + 1);
    lemma_skip_space(b, index + 1);
    if index + 2 <= b.len() {
        lemma_run_end(b, index + 2);
        lemma_skip_space(b, index + 2);
        let opened = spec_skip_space(b, index + 2);
        lemma_run_end(b, opened);
        lemma_skip_space(b, run_end(b, opened));
    }
    let opened = spec_skip_space(b, index + 1);
    lemma_run_end(b, opened);
    lemma_skip_space(b, run_end(b, opened));
    lemma_skip_space(b, run_end(b, index + 1));
}

proof fn lemma_scan_fits(g: Grammar, b: Seq<u8>, i: int, r: Reading)
    requires
        0 <= i <= b.len(),
        b.len() <= usize::MAX,
        reading_fits(g, b, r, i),
    ensures
        reading_fits(g, b, spec_scan(g, b, i, r), b.len() as int),
    decreases b.len() - i,
{
    if i < b.len() {
        let l = spec_step(g, b, i);
        lemma_step_advances(g, b, i);
        lemma_step_fits(g, b, i);
        let next = apply(b, r, l);
        assert(reading_fits(g, b, next, i + l.advance)) by {
            if let Some(f) = l.foreign {
                assert(next.foreign == r.foreign.push(f));
                assert forall|k: int, m: int| 0 <= k < m < next.foreign.len() implies (#[trigger] next.foreign[k]).offset
                    < (#[trigger] next.foreign[m]).offset by {
                    if m == r.foreign.len() {
                        assert(next.foreign[k] == r.foreign[k]);
                    } else {
                        assert(next.foreign[k] == r.foreign[k] && next.foreign[m] == r.foreign[m]);
                    }
                }
                assert forall|k: int| 0 <= k < next.foreign.len() implies foreign_fits(g, b, #[trigger] next.foreign[k])
                    && (next.foreign[k].offset as int) < i + l.advance by {
                    if k < r.foreign.len() {
                        assert(next.foreign[k] == r.foreign[k]);
                    }
                }
            }
            if let Some(o) = l.other {
                if !r.others.contains(o) {
                    assert(next.others == r.others.push(o));
                    assert forall|k: int| 0 <= k < next.others.len() implies other_fits(g, #[trigger] next.others[k]) by {
                        if k < r.others.len() {
                            assert(next.others[k] == r.others[k]);
                        }
                    }
                    assert(next.others.no_duplicates()) by {
                        assert forall|k: int, m: int| 0 <= k < m < next.others.len() implies next.others[k] != next.others[m] by {
                            if m == r.others.len() {
                                assert(next.others[k] == r.others[k]);
                                assert(r.others.contains(r.others[k]));
                            } else {
                                assert(next.others[k] == r.others[k] && next.others[m] == r.others[m]);
                            }
                        }
                    }
                }
            }
            if let Some((s, e)) = l.token {
                assert(next.tokens == r.tokens.push(name_chars(b, s, e)));
                assert forall|k: int| 0 <= k < next.tokens.len() implies (#[trigger] next.tokens[k]).len() > 0 && name_within(
                    b,
                    next.tokens[k],
                ) by {
                    if k < r.tokens.len() {
                        assert(next.tokens[k] == r.tokens[k]);
                    } else {
                        assert(name_within(b, name_chars(b, s, e)));
                    }
                }
            }
        }
        lemma_scan_fits(g, b, i + l.advance, next);
    }
}

/// What a message's reading holds to, whatever the message: each foreign
/// construct is reported at its opening byte (`{` for an ICU argument or a
/// Fluent variable, `%` for printf, `$` for a template literal or `$t(`),
/// the offsets strictly increase, and none is a construct the grammar
/// itself reads; an interpolation reported as another library's is never
/// the grammar's own style nor `{{name}}`, and each is reported once; and
/// every placeholder has a name, a run of the message's own bytes.
pub proof fn law_a_message_reads_in_order(g: Grammar, text: Seq<char>)
    requires
        utf8(text).len() <= usize::MAX,
    ensures
        reading_fits(g, utf8(text), spec_parse(g, text), utf8(text).len() as int),
        g.interpolation == Interpolation::SingleBrace ==> spec_parse(g, text).others.len() == 0,
{
    lemma_scan_fits(g, utf8(text), 0, empty_reading());
    let r = spec_parse(g, text);
    if g.interpolation == Interpolation::SingleBrace && r.others.len() > 0 {
        assert(other_fits(g, r.others[0]));
    }
}

proof fn lemma_run_end_at(b: Seq<u8>, i: int, e: int)
    requires
        0 <= i <= e < b.len(),
        forall|k: int| i <= k < e ==> is_name_byte(#[trigger] b[k]),
        !is_name_byte(b[e]),
    ensures
        run_end(b, i) == e,
    decreases e - i,
{
    if i < e {
        lemma_run_end_at(b, i + 1, e);
    }
}

/// **An ICU argument is one construct, whatever it holds**: a message
/// that is a single argument `{name, type, ...}` whose braces balance to
/// its last byte reads, under a grammar that reads ICU natively, as
/// exactly one placeholder, its argument's name, and under any other as
/// exactly one foreign ICU argument at its first byte. Nothing inside the
/// braces (a `select` or `plural` branch such as `{He}`) is read as a
/// placeholder or a construct of its own.
pub proof fn law_an_icu_argument_is_one_placeholder(g: Grammar, text: Seq<char>, e: int)
    requires
        utf8(text).len() <= usize::MAX,
        2 <= e < utf8(text).len(),
        utf8(text)[0] == 0x7Bu8,
        is_alphanumeric(utf8(text)[1]) || utf8(text)[1] == 0x5Fu8,
        forall|k: int| 1 <= k < e ==> is_name_byte(#[trigger] utf8(text)[k]),
        utf8(text)[e] == 0x2Cu8,
        spec_balanced(utf8(text), 0) == Some(utf8(text).len() as int),
    ensures
        g.icu ==> spec_parse(g, text).tokens == seq![name_chars(utf8(text), 1, e)] && spec_parse(g, text).foreign.len() == 0,
        !g.icu ==> spec_parse(g, text).tokens.len() == 0 && spec_parse(g, text).foreign == seq![
            Foreign { construct: Construct::IcuArgument, offset: 0 },
        ],
        spec_parse(g, text).others.len() == 0,
{
    let b = utf8(text);
    lemma_run_end_at(b, 1, e);
    assert(spec_skip_space(b, 1) == 1);
    assert(spec_skip_space(b, e) == e);
    assert(spec_identifier_end(b, 1) == Some(e));
    let l = spec_step(g, b, 0);
    if g.icu {
        assert(l == lexed_token(b.len() as int, 1, e));
    } else {
        assert(l == lexed_foreign(b.len() as int, Construct::IcuArgument, 0));
    }
    lemma_step_advances(g, b, 0);
    let r = apply(b, empty_reading(), l);
    assert(spec_parse(g, text) == spec_scan(g, b, b.len() as int, r));
    if g.icu {
        assert(r.tokens =~= seq![name_chars(b, 1, e)]);
    } else {
        assert(r.foreign =~= seq![Foreign { construct: Construct::IcuArgument, offset: 0 }]);
    }
}

} // verus!
