//! The front door: which i18n library does this project actually use?
//!
//! **Identification runs first and everything else is downstream of it.**
//! The grammar, the plural model, the metadata rule and the file layout
//! are all read off the row it returns.
//!
//! **Corroboration, not inference.** Five classes of evidence, and two
//! agreeing is an identification:
//!
//! 1. **Manifest** — a dependency in `package.json` or `pubspec.yaml`.
//! 2. **Config** — `i18next-parser.config.*`, `next-intl.config.*`,
//!    `l10n.yaml`.
//! 3. **Layout** — a directory shape only one library writes.
//! 4. **Content** — the catalogue's own syntax.
//! 5. **Call site** — `useTranslation()`, `vscode.l10n.t(`,
//!    `AppLocalizations.of(` in source files.
//!
//! A signature marked decisive identifies on its own. Two libraries
//! reaching an identification is a **refusal naming both**; nothing
//! reaching one is a refusal naming every signal that was found. There is
//! no fallback that guesses.
//!
//! This module holds the decision and every rule that turns what was read
//! into a signal; walking the tree and reading the files is the caller's.

use vstd::prelude::*;

use crate::library::{
    every_id, id_name, mark_name, spec_packages, spec_signatures, Id, Library, Manifest, Mark,
    Strength,
};
use crate::text::{decimal, joined_with, texts};

verus! {

#[derive(Debug, Clone, Copy, PartialEq, Eq, Structural)]
pub enum Class {
    Manifest,
    Config,
    Layout,
    Content,
    CallSite,
}

/// One piece of evidence, with enough detail that a reader can check it.
#[derive(Debug, Clone, PartialEq, Eq)]
pub struct Signal {
    pub class: Class,
    pub library: Id,
    /// What was seen and where — a path relative to the catalogues, a
    /// package name, a syntactic mark. Never file content.
    pub detail: String,
}

/// A signal as the specification sees it.
pub struct Clue {
    pub class: Class,
    pub library: Id,
    pub detail: Seq<char>,
}

impl View for Signal {
    type V = Clue;

    open spec fn view(&self) -> Clue {
        Clue { class: self.class, library: self.library, detail: self.detail@ }
    }
}

pub open spec fn clues(v: Seq<Signal>) -> Seq<Clue> {
    v.map_values(|s: Signal| s@)
}

/// What the caller said about the library question.
#[derive(Debug, Clone, Copy, PartialEq, Eq, Structural)]
pub enum Requested {
    Detect,
    Named(Id),
}

// ---------------------------------------------------------------------
// The decision, as the specification states it
// ---------------------------------------------------------------------

/// Some signal for `id` of `class` names `mark`.
pub open spec fn spec_carries(ev: Seq<Clue>, id: Id, class: Class, mark: Mark) -> bool {
    exists|i: int|
        0 <= i < ev.len() && (#[trigger] ev[i]).library == id && ev[i].class == class && ev[i].detail
            == mark_name(mark)@
}

/// Some signal for `id` is of `class`.
pub open spec fn has_class(ev: Seq<Clue>, id: Id, class: Class) -> bool {
    exists|i: int| 0 <= i < ev.len() && (#[trigger] ev[i]).library == id && ev[i].class == class
}

pub open spec fn one_if(b: bool) -> nat {
    if b {
        1
    } else {
        0
    }
}

/// How many distinct classes of evidence point at `id`.
pub open spec fn spec_classes_for(ev: Seq<Clue>, id: Id) -> nat {
    one_if(has_class(ev, id, Class::Manifest)) + one_if(has_class(ev, id, Class::Config)) + one_if(
        has_class(ev, id, Class::Layout),
    ) + one_if(has_class(ev, id, Class::Content)) + one_if(has_class(ev, id, Class::CallSite))
}

/// The content evidence carries one of `id`'s decisive signatures.
pub open spec fn decisive_for(ev: Seq<Clue>, id: Id) -> bool {
    exists|j: int|
        0 <= j < spec_signatures(id).len() && (#[trigger] spec_signatures(id)[j]).strength
            == Strength::Decisive && spec_carries(ev, id, Class::Content, spec_signatures(id)[j].mark)
}

pub open spec fn kept(id: Id, b: bool) -> Seq<Id> {
    if b {
        seq![id]
    } else {
        seq![]
    }
}

/// The libraries, in table order, that `holds` picks.
pub open spec fn table_where(holds: spec_fn(Id) -> bool) -> Seq<Id> {
    kept(Id::I18next, holds(Id::I18next)) + kept(Id::NextIntl, holds(Id::NextIntl)) + kept(
        Id::VscodeL10n,
        holds(Id::VscodeL10n),
    ) + kept(Id::FlutterArb, holds(Id::FlutterArb))
}

pub open spec fn spec_decisive(ev: Seq<Clue>) -> Seq<Id> {
    table_where(|id: Id| decisive_for(ev, id))
}

pub open spec fn spec_identified(ev: Seq<Clue>) -> Seq<Id> {
    table_where(|id: Id| spec_classes_for(ev, id) >= 2)
}

pub open spec fn class_name(class: Class) -> Seq<char> {
    match class {
        Class::Manifest => "manifest"@,
        Class::Config => "config"@,
        Class::Layout => "layout"@,
        Class::Content => "content"@,
        Class::CallSite => "call site"@,
    }
}

/// A signal as a refusal shows it: its class, then what was seen.
pub open spec fn described(s: Clue) -> Seq<char> {
    class_name(s.class) + ": "@ + s.detail
}

pub open spec fn listed_text(ev: Seq<Clue>) -> Seq<char> {
    joined_with(ev.map_values(|s: Clue| id_name(s.library)@ + " "@ + described(s)), ", "@)
}

pub open spec fn nothing_found() -> Seq<char> {
    "no i18n library could be identified here — nothing in the manifests, the config files, the layout, the catalogue syntax or the call sites points at one. Name it with --system <name>."@
}

pub open spec fn unidentified_text(ev: Seq<Clue>) -> Seq<char> {
    if ev.len() == 0 {
        nothing_found()
    } else {
        "no i18n library could be identified here. Found, but not enough to agree: "@ + listed_text(ev)
            + ". Two classes of evidence are needed. Name it with --system <name>."@
    }
}

/// The signals for `id`, in the order found.
pub open spec fn signals_for(ev: Seq<Clue>, id: Id) -> Seq<Clue>
    decreases ev.len(),
{
    if ev.len() == 0 {
        seq![]
    } else if ev.last().library == id {
        signals_for(ev.drop_last(), id).push(ev.last())
    } else {
        signals_for(ev.drop_last(), id)
    }
}

/// One library of a conflict, with its evidence.
pub open spec fn claim(ev: Seq<Clue>, id: Id) -> Seq<char> {
    id_name(id)@ + " ("@ + joined_with(signals_for(ev, id).map_values(|s: Clue| described(s)), ", "@) + ")"@
}

pub open spec fn conflicted_text(ev: Seq<Clue>, several: Seq<Id>) -> Seq<char> {
    decimal(several.len()) + " libraries are identified here and only one can be right: "@
        + joined_with(several.map_values(|id: Id| claim(ev, id)), "; "@)
        + ". Name the one these catalogues belong to with --system <name>."@
}

/// Two agreeing classes, or one decisive signature; never a pick between
/// two answers.
pub open spec fn spec_decide(ev: Seq<Clue>) -> Result<Id, Seq<char>> {
    let decisive = spec_decisive(ev);
    if decisive.len() == 1 {
        Ok(decisive[0])
    } else {
        let candidates = if decisive.len() == 0 {
            spec_identified(ev)
        } else {
            decisive
        };
        if candidates.len() == 1 {
            Ok(candidates[0])
        } else if candidates.len() == 0 {
            Err(unidentified_text(ev))
        } else {
            Err(conflicted_text(ev, candidates))
        }
    }
}

} // verus!

verus! {

// ---------------------------------------------------------------------
// The decision
// ---------------------------------------------------------------------

pub fn class_text(class: Class) -> (r: &'static str)
    ensures
        r@ == class_name(class),
{
    match class {
        Class::Manifest => "manifest",
        Class::Config => "config",
        Class::Layout => "layout",
        Class::Content => "content",
        Class::CallSite => "call site",
    }
}

/// A signal as a refusal shows it: `content: double-brace`.
pub fn describe(signal: &Signal) -> (r: String)
    ensures
        r@ == described(signal@),
{
    let mut out = String::from_str(class_text(signal.class));
    out.append(": ");
    out.append(signal.detail.as_str());
    out
}

/// Every signal, each with the library it points at.
pub fn listed(evidence: &Vec<Signal>) -> (r: String)
    ensures
        r@ == listed_text(clues(evidence@)),
{
    let ghost ev = clues(evidence@);
    let mut parts: Vec<String> = Vec::new();
    let mut i: usize = 0;
    while i < evidence.len()
        invariant
            0 <= i <= evidence@.len(),
            ev == clues(evidence@),
            parts@.len() == i,
            texts(parts@) == ev.subrange(0, i as int).map_values(
                |s: Clue| id_name(s.library)@ + " "@ + described(s),
            ),
        decreases evidence@.len() - i,
    {
        let mut part = String::from_str(evidence[i].library.as_str());
        part.append(" ");
        let d = describe(&evidence[i]);
        part.append(d.as_str());
        let ghost before = texts(parts@);
        parts.push(part);
        proof {
            assert(ev[i as int] == evidence@[i as int]@);
            assert(texts(parts@)[i as int] == id_name(ev[i as int].library)@ + " "@ + described(ev[i as int]));
            assert(texts(parts@) =~= before.push(id_name(ev[i as int].library)@ + " "@ + described(ev[i as int])));
            assert(ev.subrange(0, i + 1).map_values(|s: Clue| id_name(s.library)@ + " "@ + described(s)) =~= ev.subrange(0, i as int).map_values(|s: Clue| id_name(s.library)@ + " "@ + described(s)).push(id_name(ev[i as int].library)@ + " "@ + described(ev[i as int])));
            assert(texts(parts@) =~= ev.subrange(0, i + 1).map_values(
                |s: Clue| id_name(s.library)@ + " "@ + described(s),
            ));
        }
        i += 1;
    }
    proof {
        assert(ev.subrange(0, ev.len() as int) =~= ev);
    }
    crate::text::join(&parts, ", ")
}

/// The refusal when nothing reached an identification.
pub fn unidentified(evidence: &Vec<Signal>) -> (r: String)
    ensures
        r@ == unidentified_text(clues(evidence@)),
{
    if evidence.len() == 0 {
        return String::from_str(
            "no i18n library could be identified here — nothing in the manifests, the config files, the layout, the catalogue syntax or the call sites points at one. Name it with --system <name>.",
        );
    }
    let mut out = String::from_str("no i18n library could be identified here. Found, but not enough to agree: ");
    let l = listed(evidence);
    out.append(l.as_str());
    out.append(". Two classes of evidence are needed. Name it with --system <name>.");
    out
}

/// One library of a conflict, with the evidence for it.
fn claimed(evidence: &Vec<Signal>, id: Id) -> (r: String)
    ensures
        r@ == claim(clues(evidence@), id),
{
    let ghost ev = clues(evidence@);
    let mut parts: Vec<String> = Vec::new();
    let mut i: usize = 0;
    while i < evidence.len()
        invariant
            0 <= i <= evidence@.len(),
            ev == clues(evidence@),
            texts(parts@) == signals_for(ev.subrange(0, i as int), id).map_values(|s: Clue| described(s)),
        decreases evidence@.len() - i,
    {
        let ghost before = texts(parts@);
        proof {
            let sub = ev.subrange(0, i + 1);
            assert(sub.drop_last() =~= ev.subrange(0, i as int));
            assert(sub.last() == evidence@[i as int]@);
        }
        if evidence[i].library == id {
            parts.push(describe(&evidence[i]));
            assert(texts(parts@) =~= before.push(described(evidence@[i as int]@)));
        }
        i += 1;
    }
    proof {
        assert(ev.subrange(0, ev.len() as int) =~= ev);
    }
    let mut out = String::from_str(id.as_str());
    out.append(" (");
    let j = crate::text::join(&parts, ", ");
    out.append(j.as_str());
    out.append(")");
    out
}

/// The refusal when several libraries reached an identification.
pub fn conflicted(evidence: &Vec<Signal>, several: &Vec<Id>) -> (r: String)
    ensures
        r@ == conflicted_text(clues(evidence@), several@),
{
    let mut each: Vec<String> = Vec::new();
    let mut i: usize = 0;
    while i < several.len()
        invariant
            0 <= i <= several@.len(),
            each@.len() == i,
            texts(each@) == several@.subrange(0, i as int).map_values(|id: Id| claim(clues(evidence@), id)),
        decreases several@.len() - i,
    {
        let ghost before = texts(each@);
        each.push(claimed(evidence, several[i]));
        assert(texts(each@)[i as int] == claim(clues(evidence@), several@[i as int]));
        assert(texts(each@) =~= before.push(claim(clues(evidence@), several@[i as int])));
        assert(several@.subrange(0, i + 1).map_values(|id: Id| claim(clues(evidence@), id)) =~= several@.subrange(0, i as int).map_values(|id: Id| claim(clues(evidence@), id)).push(claim(clues(evidence@), several@[i as int])));
        assert(texts(each@) =~= several@.subrange(0, i + 1).map_values(|id: Id| claim(clues(evidence@), id)));
        i += 1;
    }
    assert(several@.subrange(0, several@.len() as int) =~= several@);
    let mut out = crate::text::decimal_text(several.len() as u64);
    out.append(" libraries are identified here and only one can be right: ");
    let j = crate::text::join(&each, "; ");
    out.append(j.as_str());
    out.append(". Name the one these catalogues belong to with --system <name>.");
    out
}

/// Whether some signal for `id` of `class` names `mark`.
pub fn carries(evidence: &Vec<Signal>, id: Id, class: Class, mark: Mark) -> (r: bool)
    ensures
        r == spec_carries(clues(evidence@), id, class, mark),
{
    let ghost ev = clues(evidence@);
    let name = mark.as_str();
    let mut i: usize = 0;
    while i < evidence.len()
        invariant
            0 <= i <= evidence@.len(),
            ev == clues(evidence@),
            name@ == mark_name(mark)@,
            forall|j: int|
                0 <= j < i ==> !((#[trigger] ev[j]).library == id && ev[j].class == class && ev[j].detail
                    == mark_name(mark)@),
        decreases evidence@.len() - i,
    {
        let signal = &evidence[i];
        proof {
            assert(ev[i as int] == signal@);
        }
        if signal.library == id && signal.class == class && crate::text::same(signal.detail.as_str(), name) {
            return true;
        }
        i += 1;
    }
    false
}

fn has(evidence: &Vec<Signal>, id: Id, class: Class) -> (r: bool)
    ensures
        r == has_class(clues(evidence@), id, class),
{
    let ghost ev = clues(evidence@);
    let mut i: usize = 0;
    while i < evidence.len()
        invariant
            0 <= i <= evidence@.len(),
            ev == clues(evidence@),
            forall|j: int| 0 <= j < i ==> !((#[trigger] ev[j]).library == id && ev[j].class == class),
        decreases evidence@.len() - i,
    {
        proof {
            assert(ev[i as int] == evidence@[i as int]@);
        }
        if evidence[i].library == id && evidence[i].class == class {
            return true;
        }
        i += 1;
    }
    false
}

/// How many distinct classes of evidence point at `id`.
pub fn classes_for(evidence: &Vec<Signal>, id: Id) -> (r: usize)
    ensures
        r == spec_classes_for(clues(evidence@), id),
{
    let mut n: usize = 0;
    if has(evidence, id, Class::Manifest) {
        n += 1;
    }
    if has(evidence, id, Class::Config) {
        n += 1;
    }
    if has(evidence, id, Class::Layout) {
        n += 1;
    }
    if has(evidence, id, Class::Content) {
        n += 1;
    }
    if has(evidence, id, Class::CallSite) {
        n += 1;
    }
    n
}

/// Whether the content evidence carries one of the library's decisive
/// signatures.
fn is_decisive(evidence: &Vec<Signal>, library: &Library) -> (r: bool)
    ensures
        r == decisive_for(clues(evidence@), library.id),
{
    let signatures = library.signatures();
    let mut j: usize = 0;
    while j < signatures.len()
        invariant
            0 <= j <= signatures@.len(),
            signatures@ == spec_signatures(library.id),
            forall|k: int|
                0 <= k < j ==> !((#[trigger] spec_signatures(library.id)[k]).strength == Strength::Decisive
                    && spec_carries(clues(evidence@), library.id, Class::Content, spec_signatures(library.id)[k].mark)),
        decreases signatures@.len() - j,
    {
        let signature = signatures[j];
        if signature.strength == Strength::Decisive && carries(evidence, library.id, Class::Content, signature.mark) {
            return true;
        }
        j += 1;
    }
    false
}

/// Two agreeing classes, or one decisive signature.
///
/// **Never pick between two answers.** A repository that declares
/// i18next and also lays out `messages/` for next-intl has two answers
/// and nothing here can know which the files in front of it belong to.
pub fn decide(evidence: &Vec<Signal>) -> (r: Result<Id, String>)
    ensures
        match spec_decide(clues(evidence@)) {
            Ok(id) => r == Ok::<Id, String>(id),
            Err(e) => r matches Err(m) && m@ == e,
        },
{
    let ghost ev = clues(evidence@);
    let table = crate::library::all();
    let mut decisive: Vec<Id> = Vec::new();
    let mut identified: Vec<Id> = Vec::new();
    let mut i: usize = 0;
    while i < table.len()
        invariant
            0 <= i <= table@.len(),
            ev == clues(evidence@),
            table@.len() == 4,
            forall|k: int| 0 <= k < 4 ==> (#[trigger] table@[k]).id == every_id()[k],
            decisive@ == every_id().subrange(0, i as int).filter(|id: Id| decisive_for(ev, id)),
            identified@ == every_id().subrange(0, i as int).filter(|id: Id| spec_classes_for(ev, id) >= 2),
        decreases table@.len() - i,
    {
        let library = &table[i];
        proof {
            let sub = every_id().subrange(0, i + 1);
            assert(sub.drop_last() =~= every_id().subrange(0, i as int));
            assert(sub.last() == library.id);
            reveal(Seq::filter);
        }
        if is_decisive(evidence, library) {
            decisive.push(library.id);
        }
        if classes_for(evidence, library.id) >= 2 {
            identified.push(library.id);
        }
        i += 1;
    }
    proof {
        assert(every_id().subrange(0, 4) =~= every_id());
        reveal_with_fuel(Seq::filter, 5);
        let d = every_id().filter(|id: Id| decisive_for(ev, id));
        assert(d =~= spec_decisive(ev)) by {
            assert(every_id().drop_last().drop_last().drop_last().drop_last() =~= Seq::<Id>::empty());
            assert(every_id().drop_last().drop_last().drop_last() =~= seq![Id::I18next]);
            assert(every_id().drop_last().drop_last() =~= seq![Id::I18next, Id::NextIntl]);
            assert(every_id().drop_last() =~= seq![Id::I18next, Id::NextIntl, Id::VscodeL10n]);
        }
        let n = every_id().filter(|id: Id| spec_classes_for(ev, id) >= 2);
        assert(n =~= spec_identified(ev)) by {
            assert(every_id().drop_last().drop_last().drop_last().drop_last() =~= Seq::<Id>::empty());
            assert(every_id().drop_last().drop_last().drop_last() =~= seq![Id::I18next]);
            assert(every_id().drop_last().drop_last() =~= seq![Id::I18next, Id::NextIntl]);
            assert(every_id().drop_last() =~= seq![Id::I18next, Id::NextIntl, Id::VscodeL10n]);
        }
    }
    if decisive.len() == 1 {
        return Ok(decisive[0]);
    }
    let candidates = if decisive.len() == 0 {
        identified
    } else {
        decisive
    };
    if candidates.len() == 1 {
        Ok(candidates[0])
    } else if candidates.len() == 0 {
        Err(unidentified(evidence))
    } else {
        Err(conflicted(evidence, &candidates))
    }
}

} // verus!

verus! {

// ---------------------------------------------------------------------
// Versions
// ---------------------------------------------------------------------

pub open spec fn is_digit_byte(c: u8) -> bool {
    0x30u8 <= c <= 0x39u8
}

/// The first index at or after `i` that holds a digit, or the end.
pub open spec fn first_digit(b: Seq<u8>, i: int) -> int
    decreases b.len() - i,
{
    if i < 0 || i >= b.len() || is_digit_byte(b[i]) {
        i
    } else {
        first_digit(b, i + 1)
    }
}

/// Where the run of digits that starts at `i` ends.
pub open spec fn digits_end(b: Seq<u8>, i: int) -> int
    decreases b.len() - i,
{
    if 0 <= i < b.len() && is_digit_byte(b[i]) {
        digits_end(b, i + 1)
    } else {
        i
    }
}

/// The number the digits `b[from..to]` spell.
pub open spec fn digits_value(b: Seq<u8>, from: int, to: int) -> nat
    decreases to - from,
{
    if to <= from {
        0
    } else {
        digits_value(b, from, to - 1) * 10 + (b[to - 1] - 0x30u8) as nat
    }
}

/// The index of the last `c` in `b[..n]`, or -1.
pub open spec fn last_byte(b: Seq<u8>, c: u8, n: int) -> int
    decreases n,
{
    if n <= 0 {
        -1
    } else if b[n - 1] == c {
        n - 1
    } else {
        last_byte(b, c, n - 1)
    }
}

pub open spec fn npm_alias() -> Seq<u8> {
    seq![0x6Eu8, 0x70u8, 0x6Du8, 0x3Au8]
}

/// The version part of a dependency spec: an `npm:` alias's text after its
/// last `@`, or the whole spec; nothing for an alias without one.
pub open spec fn version_part(b: Seq<u8>) -> Option<Seq<u8>> {
    if b.len() >= 4 && b.subrange(0, 4) == npm_alias() {
        let rest = b.subrange(4, b.len() as int);
        let at = last_byte(rest, 0x40u8, rest.len() as int);
        if at < 0 {
            None
        } else {
            Some(rest.subrange(at + 1, rest.len() as int))
        }
    } else {
        Some(b)
    }
}

/// The major a dependency spec names: the first run of digits, skipping
/// whatever comes before it (`^`, `~`, `>=`, `v`), when it fits a `u64`.
pub open spec fn spec_major(b: Seq<u8>) -> Option<u64> {
    match version_part(b) {
        None => None,
        Some(v) => {
            let from = first_digit(v, 0);
            let to = digits_end(v, from);
            if from == to || digits_value(v, from, to) > u64::MAX {
                None
            } else {
                Some(digits_value(v, from, to) as u64)
            }
        },
    }
}

proof fn lemma_digits_value_grows(b: Seq<u8>, from: int, i: int, to: int)
    requires
        from <= i <= to,
        forall|k: int| from <= k < to ==> is_digit_byte(#[trigger] b[k]),
    ensures
        digits_value(b, from, i) <= digits_value(b, from, to),
    decreases to - i,
{
    if i < to {
        lemma_digits_value_grows(b, from, i, to - 1);
        assert(digits_value(b, from, to) == digits_value(b, from, to - 1) * 10 + (b[to - 1] - 0x30u8) as nat);
        assert(digits_value(b, from, to - 1) * 10 >= digits_value(b, from, to - 1)) by (nonlinear_arith);
    }
}

proof fn lemma_first_digit(b: Seq<u8>, i: int)
    requires
        0 <= i <= b.len(),
    ensures
        i <= first_digit(b, i) <= b.len(),
        first_digit(b, i) < b.len() ==> is_digit_byte(b[first_digit(b, i)]),
    decreases b.len() - i,
{
    if i < b.len() && !is_digit_byte(b[i]) {
        lemma_first_digit(b, i + 1);
    }
}

proof fn lemma_digits_end(b: Seq<u8>, i: int)
    requires
        0 <= i <= b.len(),
    ensures
        i <= digits_end(b, i) <= b.len(),
        forall|k: int| i <= k < digits_end(b, i) ==> is_digit_byte(#[trigger] b[k]),
    decreases b.len() - i,
{
    if i < b.len() && is_digit_byte(b[i]) {
        lemma_digits_end(b, i + 1);
    }
}

/// The major version a dependency spec names, if any: `^26.2.0` is 26,
/// `npm:i18next@^22.0.0` is 22, `latest` is none.
pub fn major_of(spec: &str) -> (r: Option<u64>)
    ensures
        r == spec_major(crate::text::utf8(spec@)),
{
    let all = spec.as_bytes();
    let ghost b = all@;
    let mut start: usize = 0;
    if all.len() >= 4 && all[0] == 0x6E && all[1] == 0x70 && all[2] == 0x6D && all[3] == 0x3A {
        assert(b.subrange(0, 4) =~= npm_alias());
        let ghost rest = b.subrange(4, b.len() as int);
        let mut n = all.len();
        while n > 4 && all[n - 1] != 0x40
            invariant
                4 <= n <= b.len(),
                b == all@,
                rest == b.subrange(4, b.len() as int),
                last_byte(rest, 0x40u8, rest.len() as int) == last_byte(rest, 0x40u8, n - 4),
            decreases n,
        {
            assert(rest[n - 5] == b[n - 1]);
            n -= 1;
        }
        if n == 4 {
            return None;
        }
        assert(rest[n - 5] == b[n - 1]);
        start = n;
        assert(rest.subrange(n - 4, rest.len() as int) =~= b.subrange(n as int, b.len() as int));
    } else {
        assert(!(b.len() >= 4 && b.subrange(0, 4) == npm_alias())) by {
            if b.len() >= 4 && b.subrange(0, 4) == npm_alias() {
                assert(b.subrange(0, 4)[0] == b[0] && b.subrange(0, 4)[1] == b[1] && b.subrange(0, 4)[2] == b[2] && b.subrange(0, 4)[3] == b[3]);
            }
        }
        assert(b.subrange(0, b.len() as int) =~= b);
    }
    let ghost v = b.subrange(start as int, b.len() as int);
    assert(version_part(b) == Some(v));
    let mut i = start;
    while i < all.len() && !(0x30 <= all[i] && all[i] <= 0x39)
        invariant
            start <= i <= b.len(),
            b == all@,
            v == b.subrange(start as int, b.len() as int),
            first_digit(v, 0) == first_digit(v, i - start),
        decreases b.len() - i,
    {
        assert(v[i - start] == b[i as int]);
        i += 1;
    }
    if i < all.len() {
        assert(v[i - start] == b[i as int]);
    }
    let from = i;
    let ghost f = (from - start) as int;
    assert(first_digit(v, 0) == f);
    proof {
        lemma_digits_end(v, f);
    }
    let mut value: u64 = 0;
    let mut overflow = false;
    while i < all.len() && 0x30 <= all[i] && all[i] <= 0x39
        invariant
            from <= i <= b.len(),
            start <= from,
            f == from - start,
            b == all@,
            v == b.subrange(start as int, b.len() as int),
            digits_end(v, f) == digits_end(v, i - start),
            forall|k: int| f <= k < digits_end(v, f) ==> is_digit_byte(#[trigger] v[k]),
            i - start <= digits_end(v, f),
            !overflow ==> value == digits_value(v, f, i - start),
            overflow ==> digits_value(v, f, i - start) > u64::MAX,
        decreases b.len() - i,
    {
        assert(v[i - start] == b[i as int]);
        let d = (all[i] - 0x30) as u64;
        proof {
            lemma_digits_end(v, i - start + 1);
            assert(digits_value(v, f, i - start + 1) == digits_value(v, f, i - start) * 10 + d);
        }
        if !overflow {
            match value.checked_mul(10) {
                Some(t) => match t.checked_add(d) {
                    Some(u) => {
                        value = u;
                    },
                    None => {
                        overflow = true;
                    },
                },
                None => {
                    overflow = true;
                    assert(digits_value(v, f, i - start) * 10 > u64::MAX);
                },
            }
        } else {
            assert(digits_value(v, f, i - start) * 10 + d >= digits_value(v, f, i - start)) by (nonlinear_arith);
        }
        i += 1;
    }
    if i < all.len() {
        assert(v[i - start] == b[i as int]);
    }
    assert(digits_end(v, f) == i - start);
    if i == from {
        return None;
    }
    if overflow {
        return None;
    }
    Some(value)
}

} // verus!

verus! {

/// One dependency a manifest declares, in manifest order: the package,
/// and its version requirement where that is written as a string.
#[derive(Debug, Clone, PartialEq, Eq)]
pub struct Dependency {
    pub package: String,
    pub version: Option<String>,
}

/// A dependency as the specification sees it.
pub struct Declared {
    pub package: Seq<char>,
    pub version: Option<Seq<char>>,
}

impl View for Dependency {
    type V = Declared;

    open spec fn view(&self) -> Declared {
        Declared {
            package: self.package@,
            version: match self.version {
                Some(v) => Some(v@),
                None => None,
            },
        }
    }
}

pub open spec fn declared(v: Seq<Dependency>) -> Seq<Declared> {
    v.map_values(|d: Dependency| d@)
}

/// `package` is one of the library's packages in a manifest of that kind.
pub open spec fn declares(id: Id, package: Seq<char>, manifest: Manifest) -> bool {
    exists|i: int|
        0 <= i < spec_packages(id).len() && (#[trigger] spec_packages(id)[i]).0@ == package
            && spec_packages(id)[i].1 == manifest
}

/// No library names one package twice.
pub proof fn lemma_packages_are_distinct(id: Id, i: int, j: int)
    requires
        0 <= i < spec_packages(id).len(),
        0 <= j < spec_packages(id).len(),
        i != j,
    ensures
        spec_packages(id)[i].0@ != spec_packages(id)[j].0@,
{
    reveal_strlit("i18next");
    reveal_strlit("react-i18next");
    reveal_strlit("i18next-vue");
    reveal_strlit("flutter_localizations");
    reveal_strlit("intl");
    assert(spec_packages(id)[i].0@.len() != spec_packages(id)[j].0@.len());
}

/// The version floor a known break sets for `package` under `id`.
pub open spec fn floor_for(id: Id, package: Seq<char>) -> Option<u64> {
    if declares(id, package, Manifest::Npm) {
        spec_packages(id)[choose|i: int|
            0 <= i < spec_packages(id).len() && (#[trigger] spec_packages(id)[i]).0@ == package
                && spec_packages(id)[i].1 == Manifest::Npm].2
    } else {
        None
    }
}

/// The floor this dependency falls below, if it does.
pub open spec fn falls_below(id: Id, d: Declared) -> Option<u64> {
    match floor_for(id, d.package) {
        Some(floor) => match d.version {
            Some(v) => match spec_major(crate::text::utf8(v)) {
                Some(major) => if major < floor {
                    Some(floor)
                } else {
                    None
                },
                None => None,
            },
            None => None,
        },
        None => None,
    }
}

/// The first of the first `n` dependencies that falls below its floor.
pub open spec fn first_break(id: Id, ds: Seq<Declared>, n: int) -> Option<int>
    decreases n,
{
    if n <= 0 {
        None
    } else {
        match first_break(id, ds, n - 1) {
            Some(i) => Some(i),
            None => if falls_below(id, ds[n - 1]) is Some {
                Some(n - 1)
            } else {
                None
            },
        }
    }
}

pub open spec fn break_text(id: Id, d: Declared, floor: u64, at: Seq<char>) -> Seq<char> {
    d.package + " "@ + d.version.unwrap_or(Seq::empty()) + " in "@ + at
        + " writes its catalogues differently from "@ + decimal(floor as nat)
        + " and later, which is the model this reads. Auditing it as "@ + id_name(id)@
        + " would be wrong."@
}

/// The refusal a manifest at `at` earns, declaring the library `id` at a
/// major whose model was different: the first such dependency's.
pub open spec fn spec_version_refusal(id: Id, ds: Seq<Declared>, at: Seq<char>) -> Option<Seq<char>> {
    match first_break(id, ds, ds.len() as int) {
        Some(i) => Some(break_text(id, ds[i], falls_below(id, ds[i])->0, at)),
        None => None,
    }
}

/// The floor a known break sets for an npm package of this library.
fn floor_of(library: &Library, package: &str) -> (r: Option<u64>)
    ensures
        r == floor_for(library.id, package@),
{
    match library.package(package, Manifest::Npm) {
        Some(known) => {
            proof {
                let i = choose|i: int|
                    0 <= i < spec_packages(library.id).len() && spec_packages(library.id)[i] == (
                        known.name,
                        known.manifest,
                        known.breaking_below,
                    ) && known.name@ == package@ && known.manifest == Manifest::Npm;
                let j = choose|j: int|
                    0 <= j < spec_packages(library.id).len() && (#[trigger] spec_packages(library.id)[j]).0@ == package@
                        && spec_packages(library.id)[j].1 == Manifest::Npm;
                if i != j {
                    lemma_packages_are_distinct(library.id, i, j);
                }
            }
            known.breaking_below
        },
        None => None,
    }
}

/// The only version gate: a major below which the library's own model was
/// different, so reading its catalogues as this one would be wrong rather
/// than merely unverified. `dependencies` are one manifest's, found at
/// `at`; the first that falls below its floor is the refusal.
pub fn version_refusal(library: Id, dependencies: &Vec<Dependency>, at: &str) -> (r: Result<(), String>)
    ensures
        match spec_version_refusal(library, declared(dependencies@), at@) {
            Some(t) => r matches Err(e) && e@ == t,
            None => r is Ok,
        },
{
    let row = library.library();
    let ghost ds = declared(dependencies@);
    let mut i: usize = 0;
    while i < dependencies.len()
        invariant
            0 <= i <= dependencies@.len(),
            row.id == library,
            ds == declared(dependencies@),
            first_break(library, ds, i as int) is None,
        decreases dependencies@.len() - i,
    {
        let dependency = &dependencies[i];
        proof {
            assert(ds[i as int] == dependency@);
        }
        if let Some(floor) = floor_of(&row, dependency.package.as_str()) {
            if let Some(version) = &dependency.version {
                if let Some(major) = major_of(version.as_str()) {
                    if major < floor {
                        proof {
                            assert(first_break(library, ds, i + 1) == Some(i as int));
                            assert(first_break(library, ds, ds.len() as int) == Some(i as int)) by {
                                lemma_first_break_stays(library, ds, i + 1, ds.len() as int);
                            }
                        }
                        let mut e = dependency.package.clone();
                        e.append(" ");
                        e.append(version.as_str());
                        e.append(" in ");
                        e.append(at);
                        e.append(" writes its catalogues differently from ");
                        let n = crate::text::decimal_text(floor);
                        e.append(n.as_str());
                        e.append(" and later, which is the model this reads. Auditing it as ");
                        e.append(library.as_str());
                        e.append(" would be wrong.");
                        return Err(e);
                    }
                }
            }
        }
        i += 1;
    }
    Ok(())
}

proof fn lemma_first_break_stays(id: Id, ds: Seq<Declared>, n: int, m: int)
    requires
        n <= m,
        first_break(id, ds, n) is Some,
    ensures
        first_break(id, ds, m) == first_break(id, ds, n),
    decreases m - n,
{
    if m > n {
        lemma_first_break_stays(id, ds, n, m - 1);
    }
}

/// `d` names a package of library `id` that has a version floor, at a
/// version whose major is below it.
pub open spec fn under_floor(id: Id, d: Declared) -> bool {
    floor_for(id, d.package) matches Some(floor) && d.version matches Some(v) && spec_major(crate::text::utf8(v)) matches Some(
        major,
    ) && major < floor
}

proof fn lemma_first_break_is_first(id: Id, ds: Seq<Declared>, n: int)
    requires
        0 <= n <= ds.len(),
    ensures
        first_break(id, ds, n) is None <==> forall|j: int| 0 <= j < n ==> !under_floor(id, #[trigger] ds[j]),
        first_break(id, ds, n) matches Some(i) ==> 0 <= i < n && under_floor(id, ds[i]) && falls_below(id, ds[i]) == floor_for(
            id,
            ds[i].package,
        ) && forall|j: int| 0 <= j < i ==> !under_floor(id, #[trigger] ds[j]),
    decreases n,
{
    if n > 0 {
        lemma_first_break_is_first(id, ds, n - 1);
        if first_break(id, ds, n - 1) is None {
            assert(under_floor(id, ds[n - 1]) == falls_below(id, ds[n - 1]) is Some);
        }
    }
}

/// **A library version whose model was different is refused, wherever
/// the manifest lists it**: a manifest is refused exactly when one of its
/// dependencies, at any position, is a package of the library declared at
/// a major below that package's floor, and the refusal is then about the
/// first such dependency and its floor.
pub proof fn law_a_version_below_its_floor_is_refused(id: Id, ds: Seq<Declared>, at: Seq<char>)
    ensures
        spec_version_refusal(id, ds, at) is Some <==> exists|i: int| 0 <= i < ds.len() && #[trigger] under_floor(id, ds[i]),
        forall|i: int|
            0 <= i < ds.len() && #[trigger] under_floor(id, ds[i]) && (forall|j: int| 0 <= j < i ==> !under_floor(id, #[trigger] ds[j]))
                ==> spec_version_refusal(id, ds, at) == Some(break_text(id, ds[i], floor_for(id, ds[i].package)->0, at)),
{
    lemma_first_break_is_first(id, ds, ds.len() as int);
    assert forall|i: int|
        0 <= i < ds.len() && #[trigger] under_floor(id, ds[i]) && (forall|j: int| 0 <= j < i ==> !under_floor(id, #[trigger] ds[j]))
            implies spec_version_refusal(id, ds, at) == Some(break_text(id, ds[i], floor_for(id, ds[i].package)->0, at)) by {
        let k = first_break(id, ds, ds.len() as int)->0;
        if k < i {
            assert(!under_floor(id, ds[k]));
        } else if k > i {
            assert(!under_floor(id, ds[i]));
        }
    }
}

/// The first version of the library's packages written in a manifest,
/// where one is written at all.
pub open spec fn first_version(id: Id, ds: Seq<Declared>, manifest: Manifest, n: int) -> Option<Seq<char>>
    decreases n,
{
    if n <= 0 {
        None
    } else {
        match first_version(id, ds, manifest, n - 1) {
            Some(v) => Some(v),
            None => if declares(id, ds[n - 1].package, manifest) && ds[n - 1].version is Some
                && ds[n - 1].version->0.len() > 0 {
                ds[n - 1].version
            } else {
                None
            },
        }
    }
}

/// The version an npm manifest declares for the library: the first
/// non-empty requirement of one of its packages.
pub fn npm_version(library: Id, dependencies: &Vec<Dependency>) -> (r: Option<String>)
    ensures
        match first_version(library, declared(dependencies@), Manifest::Npm, dependencies@.len() as int) {
            Some(v) => r matches Some(s) && s@ == v,
            None => r is None,
        },
{
    declared_in(library, dependencies, Manifest::Npm)
}

fn declared_in(library: Id, dependencies: &Vec<Dependency>, manifest: Manifest) -> (r: Option<String>)
    ensures
        match first_version(library, declared(dependencies@), manifest, dependencies@.len() as int) {
            Some(v) => r matches Some(s) && s@ == v,
            None => r is None,
        },
{
    let row = library.library();
    let ghost ds = declared(dependencies@);
    let mut i: usize = 0;
    while i < dependencies.len()
        invariant
            0 <= i <= dependencies@.len(),
            row.id == library,
            ds == declared(dependencies@),
            first_version(library, ds, manifest, i as int) is None,
        decreases dependencies@.len() - i,
    {
        let dependency = &dependencies[i];
        proof {
            assert(ds[i as int] == dependency@);
        }
        if row.package(dependency.package.as_str(), manifest).is_some() {
            if let Some(version) = &dependency.version {
                if !version.as_str().is_empty() {
                    proof {
                        assert(first_version(library, ds, manifest, i + 1) == Some(version@));
                        lemma_first_version_stays(library, ds, manifest, i + 1, ds.len() as int);
                    }
                    return Some(version.clone());
                }
            }
        }
        i += 1;
    }
    None
}

proof fn lemma_first_version_stays(id: Id, ds: Seq<Declared>, manifest: Manifest, n: int, m: int)
    requires
        n <= m,
        first_version(id, ds, manifest, n) is Some,
    ensures
        first_version(id, ds, manifest, m) == first_version(id, ds, manifest, n),
    decreases m - n,
{
    if m > n {
        lemma_first_version_stays(id, ds, manifest, n, m - 1);
    }
}

} // verus!

verus! {

// ---------------------------------------------------------------------
// pubspec.yaml
// ---------------------------------------------------------------------

/// The lines of a text: its pieces between newlines, without the empty
/// one a final newline leaves. A `\r` left at a line's end is trailing
/// whitespace, which every reading here trims.
pub open spec fn text_lines(text: Seq<char>) -> Seq<Seq<char>> {
    let p = crate::text::split_pieces(text, '\n');
    if p.len() > 0 && p.last().len() == 0 {
        p.drop_last()
    } else {
        p
    }
}

/// The dependencies found in the first `n` lines, and whether line `n`
/// is still inside a dependency block.
pub open spec fn pubspec_scan(lines: Seq<Seq<char>>, n: int) -> (Seq<(Seq<char>, Seq<char>)>, bool)
    decreases n,
{
    if n <= 0 {
        (seq![], false)
    } else {
        let (found, inside) = pubspec_scan(lines, n - 1);
        let t = crate::text::trimmed_end(lines[n - 1]);
        if t.len() > 0 && !crate::text::is_white_space(t[0]) {
            (found, t == "dependencies:"@ || t == "dev_dependencies:"@)
        } else if !inside {
            (found, inside)
        } else {
            match crate::text::cut_once(crate::text::trimmed(t), ':') {
                Some((package, version)) => (
                    found.push((crate::text::trimmed(package), crate::text::trimmed(version))),
                    inside,
                ),
                None => (found, inside),
            }
        }
    }
}

/// Every dependency of a `pubspec.yaml`, as `(package, version)`: the
/// indented `key: value` lines under `dependencies:` and
/// `dev_dependencies:`.
pub open spec fn spec_pubspec_dependencies(text: Seq<char>) -> Seq<(Seq<char>, Seq<char>)> {
    let lines = text_lines(text);
    pubspec_scan(lines, lines.len() as int).0
}

pub open spec fn pair_texts(v: Seq<(&str, &str)>) -> Seq<(Seq<char>, Seq<char>)> {
    v.map_values(|p: (&str, &str)| (p.0@, p.1@))
}

/// Every dependency line of a `pubspec.yaml`, as `(package, version)`.
///
/// **Not a YAML parser**, and not pretending to be one: it reads the
/// indented keys under `dependencies:` and `dev_dependencies:`, which is
/// how every pubspec is written. A package written without a version —
/// `flutter_localizations:` with an `sdk:` line under it — comes back with
/// an empty one.
pub fn pubspec_dependencies(text: &str) -> (r: Vec<(&str, &str)>)
    ensures
        pair_texts(r@) == spec_pubspec_dependencies(text@),
{
    let pieces = crate::text::split_on(text, '\n');
    let ghost lines = text_lines(text@);
    let mut count = pieces.len();
    if count > 0 && pieces[count - 1].is_empty() {
        count -= 1;
    }
    proof {
        let p = crate::text::split_pieces(text@, '\n');
        assert(pieces@.map_values(|x: &str| x@) == p);
        if p.len() > 0 && p.last().len() == 0 {
            assert(pieces@[pieces@.len() - 1]@ == p.last());
        }
        assert(lines.len() == count);
        assert forall|k: int| 0 <= k < count implies #[trigger] lines[k] == pieces@[k]@ by {
            assert(p[k] == pieces@[k]@);
        }
    }
    let mut found: Vec<(&str, &str)> = Vec::new();
    let mut inside = false;
    let mut i: usize = 0;
    while i < count
        invariant
            0 <= i <= count <= pieces@.len(),
            lines.len() == count,
            forall|k: int| 0 <= k < count ==> #[trigger] lines[k] == pieces@[k]@,
            pubspec_scan(lines, i as int) == (pair_texts(found@), inside),
        decreases count - i,
    {
        let line = crate::text::trim_end(pieces[i]);
        let ghost before = found@;
        proof {
            assert(lines[i as int] == pieces@[i as int]@);
        }
        if !line.is_empty() && !is_white(line.get_char(0)) {
            inside = crate::text::same(line, "dependencies:") || crate::text::same(line, "dev_dependencies:");
        } else if inside {
            if let Some((package, version)) = crate::text::split_once(crate::text::trim(line), ':') {
                found.push((crate::text::trim(package), crate::text::trim(version)));
                assert(pair_texts(found@) =~= pair_texts(before).push(
                    (crate::text::trimmed(package@), crate::text::trimmed(version@)),
                ));
            }
        }
        i += 1;
    }
    found
}

/// Whether a character is Unicode whitespace.
fn is_white(c: char) -> (r: bool)
    ensures
        r == crate::text::is_white_space(c),
{
    ('\u{9}' <= c && c <= '\u{d}') || c == ' ' || c == '\u{85}' || c == '\u{a0}' || c == '\u{1680}'
        || ('\u{2000}' <= c && c <= '\u{200a}') || c == '\u{2028}' || c == '\u{2029}' || c == '\u{202f}'
        || c == '\u{205f}' || c == '\u{3000}'
}

} // verus!

verus! {

// ---------------------------------------------------------------------
// Signals
// ---------------------------------------------------------------------

/// Filtering the table is picking from it in order.
pub proof fn lemma_table_where(holds: spec_fn(Id) -> bool)
    ensures
        every_id().filter(holds) == table_where(holds),
{
    reveal_with_fuel(Seq::filter, 5);
    assert(every_id().drop_last().drop_last().drop_last().drop_last() =~= Seq::<Id>::empty());
    assert(every_id().drop_last().drop_last().drop_last() =~= seq![Id::I18next]);
    assert(every_id().drop_last().drop_last() =~= seq![Id::I18next, Id::NextIntl]);
    assert(every_id().drop_last() =~= seq![Id::I18next, Id::NextIntl, Id::VscodeL10n]);
    assert(every_id().filter(holds) =~= table_where(holds));
}

pub open spec fn clue(class: Class, library: Id, detail: Seq<char>) -> Clue {
    Clue { class, library, detail }
}

/// One signal of `class` with `detail` for each library in `ids`.
pub open spec fn clues_for(ids: Seq<Id>, class: Class, detail: Seq<char>) -> Seq<Clue> {
    ids.map_values(|id: Id| clue(class, id, detail))
}

/// The libraries, in table order, whose packages include `package` in a
/// manifest of that kind.
pub fn declaring(package: &str, manifest: Manifest) -> (r: Vec<Id>)
    ensures
        r@ == table_where(|id: Id| declares(id, package@, manifest)),
{
    let table = crate::library::all();
    let ghost holds = |id: Id| declares(id, package@, manifest);
    let mut out: Vec<Id> = Vec::new();
    let mut i: usize = 0;
    while i < table.len()
        invariant
            0 <= i <= table@.len(),
            table@.len() == 4,
            forall|k: int| 0 <= k < 4 ==> (#[trigger] table@[k]).id == every_id()[k],
            holds == (|id: Id| declares(id, package@, manifest)),
            out@ == every_id().subrange(0, i as int).filter(holds),
        decreases table@.len() - i,
    {
        proof {
            let sub = every_id().subrange(0, i + 1);
            assert(sub.drop_last() =~= every_id().subrange(0, i as int));
            assert(sub.last() == table@[i as int].id);
            reveal(Seq::filter);
        }
        if table[i].package(package, manifest).is_some() {
            out.push(table[i].id);
        }
        i += 1;
    }
    proof {
        assert(every_id().subrange(0, 4) =~= every_id());
        lemma_table_where(holds);
    }
    out
}

/// `out`, then one signal of `class` with `detail` for each of `ids`.
fn push_signals(out: &mut Vec<Signal>, ids: &Vec<Id>, class: Class, detail: &str)
    ensures
        clues(final(out)@) == clues(old(out)@) + clues_for(ids@, class, detail@),
{
    let ghost start = clues(out@);
    let mut i: usize = 0;
    while i < ids.len()
        invariant
            0 <= i <= ids@.len(),
            clues(out@) == start + clues_for(ids@.subrange(0, i as int), class, detail@),
        decreases ids@.len() - i,
    {
        let ghost before = clues(out@);
        out.push(Signal { class, library: ids[i], detail: crate::text::owned(detail) });
        assert(clues_for(ids@.subrange(0, i + 1), class, detail@) =~= clues_for(ids@.subrange(0, i as int), class, detail@).push(clue(class, ids@[i as int], detail@)));
        assert(clues(out@) =~= before.push(clue(class, ids@[i as int], detail@)));
        i += 1;
    }
    assert(ids@.subrange(0, ids@.len() as int) =~= ids@);
}

pub open spec fn npm_upto(ds: Seq<Declared>, at: Seq<char>, n: int) -> Seq<Clue>
    decreases n,
{
    if n <= 0 {
        seq![]
    } else {
        npm_upto(ds, at, n - 1) + clues_for(
            table_where(|id: Id| declares(id, ds[n - 1].package, Manifest::Npm)),
            Class::Manifest,
            ds[n - 1].package + " in "@ + at,
        )
    }
}

/// What an npm manifest at `at` says: each dependency that is one of a
/// library's packages, for that library, and the `l10n` field VS Code
/// declares its bundle directory with.
pub open spec fn spec_npm_signals(ds: Seq<Declared>, l10n_field: bool, at: Seq<char>) -> Seq<Clue> {
    npm_upto(ds, at, ds.len() as int) + if l10n_field {
        seq![clue(Class::Manifest, Id::VscodeL10n, "the l10n field in "@ + at)]
    } else {
        seq![]
    }
}

/// The evidence an npm manifest holds. `dependencies` are its
/// `dependencies`, `devDependencies` and `peerDependencies`, in that
/// order; `l10n_field` says whether it has an `l10n` field, which is how
/// VS Code declares its bundle directory — the mechanism is the editor,
/// so there is nothing to install.
pub fn npm_signals(dependencies: &Vec<Dependency>, l10n_field: bool, at: &str) -> (r: Vec<Signal>)
    ensures
        clues(r@) == spec_npm_signals(declared(dependencies@), l10n_field, at@),
{
    let ghost ds = declared(dependencies@);
    let mut out: Vec<Signal> = Vec::new();
    let mut i: usize = 0;
    while i < dependencies.len()
        invariant
            0 <= i <= dependencies@.len(),
            ds == declared(dependencies@),
            clues(out@) == npm_upto(ds, at@, i as int),
        decreases dependencies@.len() - i,
    {
        let package = dependencies[i].package.as_str();
        proof {
            assert(ds[i as int] == dependencies@[i as int]@);
        }
        let ids = declaring(package, Manifest::Npm);
        let mut detail = String::from_str(package);
        detail.append(" in ");
        detail.append(at);
        push_signals(&mut out, &ids, Class::Manifest, detail.as_str());
        i += 1;
    }
    if l10n_field {
        let mut detail = String::from_str("the l10n field in ");
        detail.append(at);
        let ghost before = clues(out@);
        out.push(Signal { class: Class::Manifest, library: Id::VscodeL10n, detail });
        assert(clues(out@) =~= before + seq![clue(Class::Manifest, Id::VscodeL10n, "the l10n field in "@ + at@)]);
    } else {
        assert(clues(out@) =~= clues(out@) + Seq::<Clue>::empty());
    }
    out
}

pub open spec fn pubspec_upto(deps: Seq<(Seq<char>, Seq<char>)>, at: Seq<char>, n: int) -> Seq<Clue>
    decreases n,
{
    if n <= 0 {
        seq![]
    } else {
        pubspec_upto(deps, at, n - 1) + clues_for(
            table_where(|id: Id| declares(id, deps[n - 1].0, Manifest::Pubspec)),
            Class::Manifest,
            deps[n - 1].0 + " in "@ + at,
        )
    }
}

/// The evidence a `pubspec.yaml` at `at` holds: each dependency that is
/// one of a library's packages, for that library.
pub fn pubspec_signals(text: &str, at: &str) -> (r: Vec<Signal>)
    ensures
        clues(r@) == pubspec_upto(spec_pubspec_dependencies(text@), at@, spec_pubspec_dependencies(text@).len() as int),
{
    let deps = pubspec_dependencies(text);
    let ghost ps = spec_pubspec_dependencies(text@);
    let mut out: Vec<Signal> = Vec::new();
    let mut i: usize = 0;
    while i < deps.len()
        invariant
            0 <= i <= deps@.len(),
            pair_texts(deps@) == ps,
            ps == spec_pubspec_dependencies(text@),
            clues(out@) == pubspec_upto(ps, at@, i as int),
        decreases deps@.len() - i,
    {
        let (package, _) = deps[i];
        proof {
            assert(ps[i as int].0 == package@);
        }
        let ids = declaring(package, Manifest::Pubspec);
        let mut detail = String::from_str(package);
        detail.append(" in ");
        detail.append(at);
        push_signals(&mut out, &ids, Class::Manifest, detail.as_str());
        i += 1;
    }
    out
}

/// The version a `pubspec.yaml` declares for the library: the first
/// non-empty version of one of its packages. A package named without one
/// does not end the search.
pub open spec fn spec_pubspec_version(id: Id, deps: Seq<(Seq<char>, Seq<char>)>, n: int) -> Option<Seq<char>>
    decreases n,
{
    if n <= 0 {
        None
    } else {
        match spec_pubspec_version(id, deps, n - 1) {
            Some(v) => Some(v),
            None => if declares(id, deps[n - 1].0, Manifest::Pubspec) && deps[n - 1].1.len() > 0 {
                Some(deps[n - 1].1)
            } else {
                None
            },
        }
    }
}

pub fn pubspec_version(library: Id, text: &str) -> (r: Option<String>)
    ensures
        match spec_pubspec_version(library, spec_pubspec_dependencies(text@), spec_pubspec_dependencies(text@).len() as int) {
            Some(v) => r matches Some(s) && s@ == v,
            None => r is None,
        },
{
    let row = library.library();
    let deps = pubspec_dependencies(text);
    let ghost ps = spec_pubspec_dependencies(text@);
    let mut i: usize = 0;
    while i < deps.len()
        invariant
            0 <= i <= deps@.len(),
            row.id == library,
            pair_texts(deps@) == ps,
            ps == spec_pubspec_dependencies(text@),
            spec_pubspec_version(library, ps, i as int) is None,
        decreases deps@.len() - i,
    {
        let (package, version) = deps[i];
        proof {
            assert(ps[i as int] == (package@, version@));
        }
        if row.package(package, Manifest::Pubspec).is_some() && !version.is_empty() {
            proof {
                assert(declares(library, ps[i as int].0, Manifest::Pubspec));
                assert(ps[i as int].1.len() > 0);
                assert(ps.len() == deps@.len());
                assert(spec_pubspec_version(library, ps, i + 1) == Some(version@));
                lemma_pubspec_version_stays(library, ps, i + 1, ps.len() as int);
            }
            return Some(crate::text::owned(version));
        }
        i += 1;
    }
    None
}

proof fn lemma_pubspec_version_stays(id: Id, deps: Seq<(Seq<char>, Seq<char>)>, n: int, m: int)
    requires
        n <= m,
        spec_pubspec_version(id, deps, n) is Some,
    ensures
        spec_pubspec_version(id, deps, m) == spec_pubspec_version(id, deps, n),
    decreases m - n,
{
    if m > n {
        lemma_pubspec_version_stays(id, deps, n, m - 1);
    }
}

} // verus!

verus! {

/// The library writes a config called `stem`, in `extension`.
pub open spec fn configures(id: Id, stem: Seq<char>, extension: Seq<char>) -> bool {
    exists|i: int|
        0 <= i < crate::library::spec_configs(id).len() && crate::library::spec_configs(id)[i].0@ == stem
            && exists|k: int|
            0 <= k < crate::library::spec_extensions(crate::library::spec_configs(id)[i].1).len()
                && crate::library::spec_extensions(crate::library::spec_configs(id)[i].1)[k]@ == extension
}

/// What a file called `name` in a directory on the way up says, shown as
/// `at`: a config one library writes. A config is a file *with an
/// extension*; `l10n.yaml` is Flutter's and a directory `l10n` is not.
pub open spec fn spec_config_signals(name: Seq<char>, at: Seq<char>) -> Seq<Clue> {
    match crate::text::cut_last(name, '.') {
        Some((stem, extension)) => clues_for(
            table_where(|id: Id| configures(id, stem, extension)),
            Class::Config,
            at,
        ),
        None => seq![],
    }
}

pub fn config_signals(name: &str, at: &str) -> (r: Vec<Signal>)
    ensures
        clues(r@) == spec_config_signals(name@, at@),
{
    let mut out: Vec<Signal> = Vec::new();
    if let Some((stem, extension)) = crate::text::rsplit_once(name, '.') {
        let table = crate::library::all();
        let ghost holds = |id: Id| configures(id, stem@, extension@);
        let mut ids: Vec<Id> = Vec::new();
        let mut i: usize = 0;
        while i < table.len()
            invariant
                0 <= i <= table@.len(),
                table@.len() == 4,
                forall|k: int| 0 <= k < 4 ==> (#[trigger] table@[k]).id == every_id()[k],
                holds == (|id: Id| configures(id, stem@, extension@)),
                ids@ == every_id().subrange(0, i as int).filter(holds),
            decreases table@.len() - i,
        {
            proof {
                let sub = every_id().subrange(0, i + 1);
                assert(sub.drop_last() =~= every_id().subrange(0, i as int));
                assert(sub.last() == table@[i as int].id);
                reveal(Seq::filter);
            }
            if table[i].writes_config(stem, extension) {
                ids.push(table[i].id);
            }
            i += 1;
        }
        proof {
            assert(every_id().subrange(0, 4) =~= every_id());
            lemma_table_where(holds);
        }
        push_signals(&mut out, &ids, Class::Config, at);
        assert(clues(out@) =~= Seq::<Clue>::empty() + clues_for(ids@, Class::Config, at@));
    } else {
        assert(clues(out@) =~= Seq::<Clue>::empty());
    }
    out
}

/// The content signals of one library: each of its signatures that is not
/// weak and whose mark the sampled catalogues carry.
pub open spec fn signature_clues(id: Id, marks: Seq<Mark>, n: int) -> Seq<Clue>
    decreases n,
{
    if n <= 0 {
        seq![]
    } else {
        let s = spec_signatures(id)[n - 1];
        signature_clues(id, marks, n - 1) + if s.strength != Strength::Weak && marks.contains(s.mark) {
            seq![clue(Class::Content, id, mark_name(s.mark)@)]
        } else {
            seq![]
        }
    }
}

pub open spec fn content_upto(marks: Seq<Mark>, n: int) -> Seq<Clue>
    decreases n,
{
    if n <= 0 {
        seq![]
    } else {
        content_upto(marks, n - 1) + signature_clues(every_id()[n - 1], marks, spec_signatures(every_id()[n - 1]).len() as int)
    }
}

/// The catalogues' own syntax, the strongest class. A weak mark does not
/// vote: `{name}` is prose in every library's catalogues, including the
/// ones that do not read it.
pub fn content_signals(marks: &Vec<Mark>) -> (r: Vec<Signal>)
    ensures
        clues(r@) == content_upto(marks@, 4),
{
    let table = crate::library::all();
    let mut out: Vec<Signal> = Vec::new();
    let mut i: usize = 0;
    while i < table.len()
        invariant
            0 <= i <= table@.len(),
            table@.len() == 4,
            forall|k: int| 0 <= k < 4 ==> (#[trigger] table@[k]).id == every_id()[k],
            clues(out@) == content_upto(marks@, i as int),
        decreases table@.len() - i,
    {
        let id = table[i].id;
        let signatures = table[i].signatures();
        let ghost start = clues(out@);
        let mut j: usize = 0;
        while j < signatures.len()
            invariant
                0 <= j <= signatures@.len(),
                signatures@ == spec_signatures(id),
                clues(out@) == start + signature_clues(id, marks@, j as int),
            decreases signatures@.len() - j,
        {
            let signature = signatures[j];
            let ghost before = clues(out@);
            if signature.strength != Strength::Weak && marks_hold(marks, signature.mark) {
                out.push(Signal { class: Class::Content, library: id, detail: String::from_str(signature.mark.as_str()) });
                assert(clues(out@) =~= before + seq![clue(Class::Content, id, mark_name(signature.mark)@)]);
            } else {
                assert(clues(out@) =~= before + Seq::<Clue>::empty());
            }
            j += 1;
        }
        i += 1;
    }
    out
}

fn marks_hold(marks: &Vec<Mark>, mark: Mark) -> (r: bool)
    ensures
        r == marks@.contains(mark),
{
    let mut i: usize = 0;
    while i < marks.len()
        invariant
            0 <= i <= marks@.len(),
            forall|j: int| 0 <= j < i ==> marks@[j] != mark,
        decreases marks@.len() - i,
    {
        if marks[i] == mark {
            assert(marks@[i as int] == mark);
            return true;
        }
        i += 1;
    }
    false
}

/// `marks`, with each of `new` that it lacks added in order.
pub open spec fn noted(marks: Seq<Mark>, new: Seq<Mark>) -> Seq<Mark>
    decreases new.len(),
{
    if new.len() == 0 {
        marks
    } else {
        let m = noted(marks, new.drop_last());
        if m.contains(new.last()) {
            m
        } else {
            m.push(new.last())
        }
    }
}

pub open spec fn message_marks(messages: Seq<&str>, n: int) -> Seq<Mark>
    decreases n,
{
    if n <= 0 {
        seq![]
    } else {
        message_marks(messages, n - 1) + crate::message::spec_marks(messages[n - 1]@)
    }
}

fn note_all(marks: &mut Vec<Mark>, new: &Vec<Mark>)
    ensures
        final(marks)@ == noted(old(marks)@, new@),
{
    let ghost start = marks@;
    let mut i: usize = 0;
    while i < new.len()
        invariant
            0 <= i <= new@.len(),
            marks@ == noted(start, new@.subrange(0, i as int)),
        decreases new@.len() - i,
    {
        proof {
            let sub = new@.subrange(0, i + 1);
            assert(sub.drop_last() =~= new@.subrange(0, i as int));
        }
        crate::message::note(marks, new[i]);
        i += 1;
    }
    assert(new@.subrange(0, new@.len() as int) =~= new@);
}

proof fn lemma_noted_concat(marks: Seq<Mark>, a: Seq<Mark>, b: Seq<Mark>)
    ensures
        noted(noted(marks, a), b) == noted(marks, a + b),
    decreases b.len(),
{
    if b.len() == 0 {
        assert(a + b =~= a);
    } else {
        lemma_noted_concat(marks, a, b.drop_last());
        assert((a + b).drop_last() =~= a + b.drop_last());
        assert((a + b).last() == b.last());
    }
}

/// Every mark one sampled catalogue carries, read with no library in
/// hand: the marks of its key set, then those of its messages, each added
/// to `marks` unless it is already there.
pub fn sampled_marks(keys: &[&str], messages: &[&str], marks: &mut Vec<Mark>)
    ensures
        final(marks)@ == noted(
            old(marks)@,
            crate::message::spec_key_marks(keys@) + message_marks(messages@, messages@.len() as int),
        ),
{
    let ghost start = marks@;
    let from_keys = crate::message::key_marks(keys);
    note_all(marks, &from_keys);
    let ghost after_keys = marks@;
    let mut i: usize = 0;
    while i < messages.len()
        invariant
            0 <= i <= messages@.len(),
            after_keys == noted(start, from_keys@),
            from_keys@ == crate::message::spec_key_marks(keys@),
            marks@ == noted(after_keys, message_marks(messages@, i as int)),
        decreases messages@.len() - i,
    {
        let found = crate::message::marks(messages[i]);
        let ghost before = marks@;
        note_all(marks, &found);
        proof {
            lemma_noted_concat(after_keys, message_marks(messages@, i as int), found@);
        }
        i += 1;
    }
    proof {
        lemma_noted_concat(start, from_keys@, message_marks(messages@, messages@.len() as int));
    }
}

/// The first of the library's call patterns that `text` holds.
pub open spec fn first_call(id: Id, text: Seq<u8>, n: int) -> Option<int>
    decreases n,
{
    if n <= 0 {
        None
    } else {
        match first_call(id, text, n - 1) {
            Some(j) => Some(j),
            None => if crate::text::occurs(text, crate::text::utf8(crate::library::spec_calls(id)[n - 1]@)) {
                Some(n - 1)
            } else {
                None
            },
        }
    }
}

pub open spec fn call_upto(before: Seq<Clue>, text: Seq<u8>, at: Seq<char>, n: int) -> Seq<Clue>
    decreases n,
{
    if n <= 0 {
        seq![]
    } else {
        let id = every_id()[n - 1];
        call_upto(before, text, at, n - 1) + if has_class(before, id, Class::CallSite) {
            seq![]
        } else {
            match first_call(id, text, crate::library::spec_calls(id).len() as int) {
                Some(j) => seq![clue(Class::CallSite, id, crate::library::spec_calls(id)[j]@ + " in "@ + at)],
                None => seq![],
            }
        }
    }
}

/// What one source file, shown as `at`, adds to the call-site evidence:
/// for each library that has no call site yet, the first of its call
/// patterns the text holds. Read **only** to answer which library this
/// is; nothing read here reaches a finding.
pub fn call_signals(signals: &mut Vec<Signal>, text: &str, at: &str)
    ensures
        clues(final(signals)@) == clues(old(signals)@) + call_upto(clues(old(signals)@), crate::text::utf8(text@), at@, 4),
{
    let ghost before = clues(signals@);
    let table = crate::library::all();
    let mut already: Vec<bool> = Vec::new();
    let mut i: usize = 0;
    while i < table.len()
        invariant
            0 <= i <= table@.len(),
            table@.len() == 4,
            forall|k: int| 0 <= k < 4 ==> (#[trigger] table@[k]).id == every_id()[k],
            before == clues(signals@),
            already@.len() == i,
            forall|k: int| 0 <= k < i ==> already@[k] == has_class(before, every_id()[k], Class::CallSite),
        decreases table@.len() - i,
    {
        already.push(has(signals, table[i].id, Class::CallSite));
        i += 1;
    }
    let bytes = text.as_bytes();
    let mut i: usize = 0;
    while i < table.len()
        invariant
            0 <= i <= table@.len(),
            table@.len() == 4,
            forall|k: int| 0 <= k < 4 ==> (#[trigger] table@[k]).id == every_id()[k],
            already@.len() == 4,
            forall|k: int| 0 <= k < 4 ==> already@[k] == has_class(before, every_id()[k], Class::CallSite),
            bytes@ == crate::text::utf8(text@),
            clues(signals@) == before + call_upto(before, bytes@, at@, i as int),
        decreases table@.len() - i,
    {
        let id = table[i].id;
        let ghost prior = clues(signals@);
        if !already[i] {
            let calls = table[i].calls();
            let mut j: usize = 0;
            while j < calls.len() && !crate::text::contains(bytes, calls[j].as_bytes())
                invariant
                    0 <= j <= calls@.len(),
                    calls@ == crate::library::spec_calls(id),
                    bytes@ == crate::text::utf8(text@),
                    first_call(id, bytes@, j as int) is None,
                decreases calls@.len() - j,
            {
                j += 1;
            }
            let found: Option<usize> = if j < calls.len() {
                Some(j)
            } else {
                None
            };
            proof {
                if j < calls@.len() {
                    assert(first_call(id, bytes@, j + 1) == Some(j as int));
                    lemma_first_call_stays(id, bytes@, j + 1, calls@.len() as int);
                }
            }
            if let Some(j) = found {
                let mut detail = String::from_str(calls[j]);
                detail.append(" in ");
                detail.append(at);
                signals.push(Signal { class: Class::CallSite, library: id, detail });
                assert(clues(signals@) =~= prior + seq![clue(Class::CallSite, id, crate::library::spec_calls(id)[j as int]@ + " in "@ + at@)]);
            } else {
                assert(clues(signals@) =~= prior + Seq::<Clue>::empty());
            }
        } else {
            assert(clues(signals@) =~= prior + Seq::<Clue>::empty());
        }
        i += 1;
    }
}

proof fn lemma_first_call_stays(id: Id, text: Seq<u8>, n: int, m: int)
    requires
        n <= m,
        first_call(id, text, n) is Some,
    ensures
        first_call(id, text, m) == first_call(id, text, n),
    decreases m - n,
{
    if m > n {
        lemma_first_call_stays(id, text, n, m - 1);
    }
}

/// Whether a layout is distinctive enough for its files to be evidence
/// where the catalogues sit in a directory called `here`. A directory of
/// `<locale>.json` is what almost every project's translations look like,
/// so that alone must not vote; a layout that names its directories
/// votes only from one of them.
pub open spec fn spec_distinctive(layout: crate::library::Layout, here: Seq<char>) -> bool {
    match layout.directories {
        Some(d) => exists|i: int|
            0 <= i < crate::library::spec_directories(d).len() && crate::library::spec_directories(d)[i]@ == here,
        None => !(layout.shape matches crate::library::Shape::Shared { extension } && extension@ == "json"@),
    }
}

pub fn distinctive(layout: &crate::library::Layout, here: &str) -> (r: bool)
    ensures
        r == spec_distinctive(*layout, here@),
{
    if layout.directories.is_some() {
        return layout.names_directory(here);
    }
    match layout.shape {
        crate::library::Shape::Shared { extension } => !crate::text::same(extension, "json"),
        _ => true,
    }
}

} // verus!

verus! {

/// `prefix` is the start of `path`, component by component.
pub open spec fn leads(prefix: Seq<Seq<char>>, path: Seq<Seq<char>>) -> bool {
    prefix.len() <= path.len() && path.subrange(0, prefix.len() as int) == prefix
}

/// `"../"` written `n` times.
pub open spec fn ups(n: nat) -> Seq<char>
    decreases n,
{
    if n == 0 {
        seq![]
    } else {
        ups((n - 1) as nat) + "../"@
    }
}

/// The first ancestor of `anchor`, counting up from `anchor` itself, that
/// `path` lies under, as how many levels up it is.
pub open spec fn first_ancestor(path: Seq<Seq<char>>, anchor: Seq<Seq<char>>, up: int) -> Option<int>
    decreases anchor.len() - up + 1,
{
    if up < 0 || up > anchor.len() {
        None
    } else if leads(anchor.subrange(0, anchor.len() - up), path) {
        Some(up)
    } else {
        first_ancestor(path, anchor, up + 1)
    }
}

/// A path as the report and every refusal shows it: relative to the
/// catalogues' directory `anchor`, both given as their components.
pub open spec fn spec_shown(path: Seq<Seq<char>>, anchor: Seq<Seq<char>>) -> Seq<char> {
    match first_ancestor(path, anchor, 0) {
        Some(up) => ups(up as nat) + joined_with(path.subrange(anchor.len() - up, path.len() as int), "/"@),
        None => if path.len() > 0 {
            path.last()
        } else {
            seq![]
        },
    }
}

/// A path as the report and every refusal shows it: relative to the
/// catalogues, never absolute. An absolute `/Users/someone/work/…` in a
/// report meant to be diffed between machines makes every such diff a
/// difference.
pub fn shown(path: &Vec<String>, anchor: &Vec<String>) -> (r: String)
    ensures
        r@ == spec_shown(texts(path@), texts(anchor@)),
{
    let ghost p = texts(path@);
    let ghost a = texts(anchor@);
    let mut up: usize = 0;
    while up <= anchor.len()
        invariant
            0 <= up <= anchor@.len() + 1,
            p == texts(path@),
            a == texts(anchor@),
            first_ancestor(p, a, 0) == first_ancestor(p, a, up as int),
        decreases anchor@.len() + 1 - up,
    {
        let keep = anchor.len() - up;
        if keep <= path.len() && same_components(path, anchor, keep) {
            proof {
                assert(a.subrange(0, keep as int) =~= p.subrange(0, keep as int));
                assert(leads(a.subrange(0, a.len() - up), p));
            }
            let mut out = String::new();
            let mut k: usize = 0;
            while k < up
                invariant
                    0 <= k <= up,
                    out@ == ups(k as nat),
                decreases up - k,
            {
                out.append("../");
                k += 1;
            }
            let mut rest: Vec<String> = Vec::new();
            let mut j = keep;
            while j < path.len()
                invariant
                    keep <= j <= path@.len(),
                    p == texts(path@),
                    rest@.len() == j - keep,
                    texts(rest@) == p.subrange(keep as int, j as int),
                decreases path@.len() - j,
            {
                let ghost before = texts(rest@);
                rest.push(path[j].clone());
                assert(texts(rest@) =~= before.push(p[j as int]));
                assert(texts(rest@) =~= p.subrange(keep as int, j + 1));
                j += 1;
            }
            let joined = crate::text::join(&rest, "/");
            out.append(joined.as_str());
            return out;
        }
        proof {
            if keep <= path@.len() {
                if leads(a.subrange(0, a.len() - up), p) {
                    assert forall|i: int| 0 <= i < keep implies path@[i]@ == anchor@[i]@ by {
                        assert(p.subrange(0, keep as int)[i] == a.subrange(0, keep as int)[i]);
                    }
                }
            }
        }
        up += 1;
    }
    if path.len() > 0 {
        return path[path.len() - 1].clone();
    }
    String::new()
}

/// Whether the first `keep` components of `path` and `anchor` agree.
fn same_components(path: &Vec<String>, anchor: &Vec<String>, keep: usize) -> (r: bool)
    requires
        keep <= path@.len(),
        keep <= anchor@.len(),
    ensures
        r == (forall|i: int| 0 <= i < keep ==> path@[i]@ == anchor@[i]@),
{
    let mut i: usize = 0;
    while i < keep
        invariant
            0 <= i <= keep,
            keep <= path@.len(),
            keep <= anchor@.len(),
            forall|k: int| 0 <= k < i ==> path@[k]@ == anchor@[k]@,
        decreases keep - i,
    {
        if !crate::text::same(path[i].as_str(), anchor[i].as_str()) {
            return false;
        }
        i += 1;
    }
    true
}

} // verus!

verus! {

// ---------------------------------------------------------------------
// What the decision promises
// ---------------------------------------------------------------------

proof fn lemma_picked(holds: spec_fn(Id) -> bool, k: int)
    requires
        0 <= k < table_where(holds).len(),
    ensures
        holds(table_where(holds)[k]),
{
    lemma_table_where(holds);
    every_id().lemma_filter_pred(holds, k);
}

proof fn lemma_listed(holds: spec_fn(Id) -> bool, id: Id)
    requires
        holds(id),
    ensures
        table_where(holds).contains(id),
{
    lemma_table_where(holds);
    let k: int = match id {
        Id::I18next => 0,
        Id::NextIntl => 1,
        Id::VscodeL10n => 2,
        Id::FlutterArb => 3,
    };
    assert(every_id()[k] == id);
    every_id().lemma_filter_contains(holds, k);
}

proof fn lemma_two_listed(holds: spec_fn(Id) -> bool, a: Id, b: Id)
    requires
        a != b,
        holds(a),
        holds(b),
    ensures
        table_where(holds).len() >= 2,
{
    lemma_listed(holds, a);
    lemma_listed(holds, b);
    let s = table_where(holds);
    if s.len() < 2 {
        let i = choose|i: int| 0 <= i < s.len() && s[i] == a;
        let j = choose|j: int| 0 <= j < s.len() && s[j] == b;
        assert(i == 0 && j == 0);
    }
}

/// An identification is corroborated: the library named carries one of
/// its decisive signatures, or at least two classes of evidence agree on
/// it. A single class of evidence, however much of it, never identifies.
pub proof fn law_an_identification_is_corroborated(ev: Seq<Clue>)
    ensures
        spec_decide(ev) matches Ok(id) ==> decisive_for(ev, id) || spec_classes_for(ev, id) >= 2,
{
    let d = |id: Id| decisive_for(ev, id);
    let c = |id: Id| spec_classes_for(ev, id) >= 2;
    assert(spec_decisive(ev) == table_where(d));
    assert(spec_identified(ev) == table_where(c));
    if spec_decisive(ev).len() > 0 {
        lemma_picked(d, 0);
    } else if spec_identified(ev).len() > 0 {
        lemma_picked(c, 0);
    }
}

/// Never a pick between two answers: where two libraries each carry a
/// decisive signature, or where none carries one and two libraries each
/// have two classes of evidence, the answer is a refusal.
pub proof fn law_two_answers_are_refused(ev: Seq<Clue>, a: Id, b: Id)
    requires
        a != b,
        (decisive_for(ev, a) && decisive_for(ev, b)) || ((forall|id: Id| !decisive_for(ev, id))
            && spec_classes_for(ev, a) >= 2 && spec_classes_for(ev, b) >= 2),
    ensures
        spec_decide(ev) is Err,
{
    let d = |id: Id| decisive_for(ev, id);
    let c = |id: Id| spec_classes_for(ev, id) >= 2;
    assert(spec_decisive(ev) == table_where(d));
    assert(spec_identified(ev) == table_where(c));
    if decisive_for(ev, a) && decisive_for(ev, b) {
        lemma_two_listed(d, a, b);
    } else {
        if spec_decisive(ev).len() > 0 {
            lemma_picked(d, 0);
        }
        assert(spec_decisive(ev).len() == 0);
        lemma_two_listed(c, a, b);
    }
}

/// Naming nothing at all is refused, and the refusal says where it looked.
pub proof fn law_no_evidence_is_refused()
    ensures
        spec_decide(seq![]) == Err::<Id, Seq<char>>(nothing_found()),
{
    let ev: Seq<Clue> = seq![];
    let d = |id: Id| decisive_for(ev, id);
    let c = |id: Id| spec_classes_for(ev, id) >= 2;
    assert(spec_decisive(ev) == table_where(d));
    assert(spec_identified(ev) == table_where(c));
    if spec_decisive(ev).len() > 0 {
        lemma_picked(d, 0);
    }
    if spec_identified(ev).len() > 0 {
        lemma_picked(c, 0);
    }
}

} // verus!

verus! {

// ---------------------------------------------------------------------
// What the tree walk may read
// ---------------------------------------------------------------------

/// Caps on the call-site scan. It reads other people's source code, so it
/// stays cheap and bounded rather than thorough.
pub const MAX_SOURCE_FILES: usize = 400;

pub const MAX_SOURCE_BYTES: u64 = 524288;

pub const MAX_SOURCE_DEPTH: usize = 6;

/// Catalogues parsed for content evidence: enough to see the syntax, not
/// the whole set.
pub const MAX_SAMPLED: usize = 12;

/// A manifest is small by every convention that writes one; the cap is
/// there because the file is somebody else's.
pub const MAX_MANIFEST_BYTES: u64 = 8388608;

/// Directories whose contents are somebody else's code or this project's
/// own build output. A call site found in either is true but useless.
pub open spec fn skipped_directories() -> Seq<&'static str> {
    seq![
        "node_modules",
        ".git",
        "target",
        "dist",
        "build",
        ".next",
        "out",
        "out-test",
        "coverage",
        "vendor",
        "lib",
    ]
}

pub open spec fn source_extensions() -> Seq<&'static str> {
    seq!["ts", "tsx", "js", "jsx", "mjs", "cjs", "vue", "svelte", "dart"]
}

pub open spec fn spec_walks_into(name: Seq<char>) -> bool {
    !(name.len() > 0 && name[0] == '.') && !(exists|i: int|
        0 <= i < skipped_directories().len() && skipped_directories()[i]@ == name)
}

/// Whether the call-site scan descends into a directory of this name: not
/// a hidden one, and not one nobody means.
pub fn walks_into(name: &str) -> (r: bool)
    ensures
        r == spec_walks_into(name@),
{
    let skipped: Vec<&'static str> = vec![
        "node_modules",
        ".git",
        "target",
        "dist",
        "build",
        ".next",
        "out",
        "out-test",
        "coverage",
        "vendor",
        "lib",
    ];
    assert(skipped@ == skipped_directories());
    let hidden = if name.is_empty() {
        false
    } else {
        let c = name.get_char(0);
        c == '.'
    };
    !hidden && !crate::library::listed_in(&skipped, name)
}

pub open spec fn spec_is_source(name: Seq<char>) -> bool {
    exists|i: int|
        0 <= i < source_extensions().len() && crate::layout::spec_has_extension(name, source_extensions()[i]@)
}

/// Whether a file of this name is source the call-site scan reads.
pub fn is_source(name: &str) -> (r: bool)
    ensures
        r == spec_is_source(name@),
{
    let extensions: Vec<&'static str> = vec!["ts", "tsx", "js", "jsx", "mjs", "cjs", "vue", "svelte", "dart"];
    assert(extensions@ == source_extensions());
    let mut i: usize = 0;
    while i < extensions.len()
        invariant
            0 <= i <= extensions@.len(),
            extensions@ == source_extensions(),
            forall|j: int| 0 <= j < i ==> !crate::layout::spec_has_extension(name@, #[trigger] source_extensions()[j]@),
        decreases extensions@.len() - i,
    {
        if crate::layout::has_extension(name, extensions[i]) {
            return true;
        }
        i += 1;
    }
    false
}

/// The signals for one library, in the order they were found: what a
/// report quotes as the evidence for the library it settled on.
pub fn evidence_for(evidence: &Vec<Signal>, id: Id) -> (r: Vec<Signal>)
    ensures
        clues(r@) == signals_for(clues(evidence@), id),
{
    let ghost ev = clues(evidence@);
    let mut out: Vec<Signal> = Vec::new();
    let mut i: usize = 0;
    while i < evidence.len()
        invariant
            0 <= i <= evidence@.len(),
            ev == clues(evidence@),
            clues(out@) == signals_for(ev.subrange(0, i as int), id),
        decreases evidence@.len() - i,
    {
        let ghost before = clues(out@);
        proof {
            let sub = ev.subrange(0, i + 1);
            assert(sub.drop_last() =~= ev.subrange(0, i as int));
            assert(sub.last() == evidence@[i as int]@);
        }
        if evidence[i].library == id {
            out.push(evidence[i].clone_signal());
            assert(clues(out@) =~= before.push(evidence@[i as int]@));
        }
        i += 1;
    }
    assert(ev.subrange(0, ev.len() as int) =~= ev);
    out
}

impl Signal {
    /// The same signal, field by field.
    pub fn clone_signal(&self) -> (r: Signal)
        ensures
            r@ == self@,
    {
        Signal { class: self.class, library: self.library, detail: self.detail.clone() }
    }
}

/// The catalogues read for content evidence, whatever the layout: every
/// file found, in path order and each path once, and no more than
/// `MAX_SAMPLED` of them.
pub open spec fn sample_of(fs: Seq<crate::layout::Found>, n: int) -> Seq<crate::layout::Found>
    decreases n,
{
    if n <= 0 {
        seq![]
    } else {
        crate::layout::placed(sample_of(fs, n - 1), fs[n - 1])
    }
}

pub open spec fn spec_sampled(fs: Seq<crate::layout::Found>) -> Seq<crate::layout::Found> {
    let all = sample_of(fs, fs.len() as int);
    if all.len() > MAX_SAMPLED {
        all.subrange(0, MAX_SAMPLED as int)
    } else {
        all
    }
}

pub fn sampled(found: &Vec<crate::layout::Candidate>) -> (r: Vec<crate::layout::Candidate>)
    ensures
        crate::layout::founds(r@) == spec_sampled(crate::layout::founds(found@)),
{
    let ghost fs = crate::layout::founds(found@);
    let mut out: Vec<crate::layout::Candidate> = Vec::new();
    let mut i: usize = 0;
    while i < found.len()
        invariant
            0 <= i <= found@.len(),
            fs == crate::layout::founds(found@),
            crate::layout::founds(out@) == sample_of(fs, i as int),
        decreases found@.len() - i,
    {
        let c = crate::layout::copy_candidate(&found[i]);
        assert(c@ == fs[i as int]);
        crate::layout::place(&mut out, c);
        i += 1;
    }
    if out.len() > MAX_SAMPLED {
        let ghost all = crate::layout::founds(out@);
        out.truncate(MAX_SAMPLED);
        assert(crate::layout::founds(out@) =~= all.subrange(0, MAX_SAMPLED as int));
    }
    out
}

} // verus!

verus! {

pub open spec fn spec_layout_signal(id: Id, layout: crate::library::Layout, here: Seq<char>, reads: bool) -> Option<Clue> {
    if spec_distinctive(layout, here) && reads {
        Some(Clue { class: Class::Layout, library: id, detail: crate::layout::shape_text(layout.shape) })
    } else {
        None
    }
}

/// What one of a library's layouts adds to the evidence: a vote when the
/// layout is distinctive in the directory `here` and it reads the files
/// (`reads`) — "these files read cleanly under this shape", nothing more.
pub fn layout_signal(id: Id, layout: &crate::library::Layout, here: &str, reads: bool) -> (r: Option<Signal>)
    ensures
        match spec_layout_signal(id, *layout, here@, reads) {
            Some(c) => r matches Some(s) && s@ == c,
            None => r is None,
        },
{
    if reads && distinctive(layout, here) {
        Some(Signal { class: Class::Layout, library: id, detail: crate::layout::describe_shape(layout.shape) })
    } else {
        None
    }
}

} // verus!

verus! {

/// The decision, read off two lists: `D`, the libraries (in table order)
/// whose decisive signature the content carries, and `I`, those with two
/// or more classes of evidence. It answers exactly when `D` is one
/// library, or `D` is empty and `I` is one library; otherwise it refuses,
/// naming every candidate when there are several and every signal found
/// when there are none. Membership in either list is exactly the property
/// that names it.
pub proof fn law_the_decision_in_full(ev: Seq<Clue>)
    ensures
        ({
            let d = spec_decisive(ev);
            let i = spec_identified(ev);
            &&& forall|id: Id| d.contains(id) <==> decisive_for(ev, id)
            &&& forall|id: Id| i.contains(id) <==> spec_classes_for(ev, id) >= 2
            &&& forall|id: Id|
                spec_decide(ev) == Ok::<Id, Seq<char>>(id) <==> (d == seq![id] || (d.len() == 0 && i == seq![id]))
            &&& d.len() >= 2 ==> spec_decide(ev) == Err::<Id, Seq<char>>(conflicted_text(ev, d))
            &&& d.len() == 0 && i.len() >= 2 ==> spec_decide(ev) == Err::<Id, Seq<char>>(conflicted_text(ev, i))
            &&& d.len() == 0 && i.len() == 0 ==> spec_decide(ev) == Err::<Id, Seq<char>>(unidentified_text(ev))
        }),
{
    let dp = |id: Id| decisive_for(ev, id);
    let cp = |id: Id| spec_classes_for(ev, id) >= 2;
    assert(spec_decisive(ev) == table_where(dp));
    assert(spec_identified(ev) == table_where(cp));
    assert forall|id: Id| spec_decisive(ev).contains(id) <==> decisive_for(ev, id) by {
        if decisive_for(ev, id) {
            lemma_listed(dp, id);
        }
        if spec_decisive(ev).contains(id) {
            let k = choose|k: int| 0 <= k < spec_decisive(ev).len() && spec_decisive(ev)[k] == id;
            lemma_picked(dp, k);
        }
    }
    assert forall|id: Id| spec_identified(ev).contains(id) <==> spec_classes_for(ev, id) >= 2 by {
        if spec_classes_for(ev, id) >= 2 {
            lemma_listed(cp, id);
        }
        if spec_identified(ev).contains(id) {
            let k = choose|k: int| 0 <= k < spec_identified(ev).len() && spec_identified(ev)[k] == id;
            lemma_picked(cp, k);
        }
    }
    let d = spec_decisive(ev);
    let i = spec_identified(ev);
    assert forall|id: Id|
        spec_decide(ev) == Ok::<Id, Seq<char>>(id) <==> (d == seq![id] || (d.len() == 0 && i == seq![id])) by {
        if d.len() == 1 {
            assert(d == seq![d[0]]);
        }
        if d.len() == 0 && i.len() == 1 {
            assert(i == seq![i[0]]);
        }
    }
}

} // verus!
