//! The checks.
//!
//! **One named source locale is the reference, never the union of all of
//! them.** A union is actively wrong: one locale's typo'd key would become
//! a requirement every other locale is then missing. English is the
//! contract; the others are measured against it.
//!
//! Everything here runs with the library already identified: the grammar,
//! the plural model and the metadata rule arrive as values.
//!
//! **No translated value crosses this boundary, and the types are what
//! stop it.** A finding carries `Evidence`: token names, counts, styles,
//! shapes, occurrence counts, or a construct with a byte offset. None of
//! them can hold a sentence. An `untranslated` finding is proved by
//! "source and target are byte-identical", a fact about the text rather
//! than the text.
//!
//! Keys are the exception, and deliberately: a finding that will not name
//! its key is not a finding.
//!
//! `audit` is proved to compute `spec_audit`, which writes every check out
//! over the catalogues' models.

use vstd::prelude::*;
use vstd::hash_map::StringHashMap;

use crate::catalogue::{Duplicate, Entry, EntryModel, Shape};
use crate::library::{spec_grammar, spec_metadata, spec_plurals, is_metadata_key, Grammar, Id, Interpolation, Library, Plurals};
use crate::message::{spec_parse, spec_plural_base, Construct, Foreign, Token};
use crate::text::{
    ascending, blank, byte_less, is_blank, lemma_ascending_unique, lemma_byte_less_irreflexive,
    lemma_byte_less_total, lemma_byte_less_transitive, lemma_utf8_injective, precedes, texts, utf8,
};

verus! {

#[derive(Debug, Clone, Copy, PartialEq, Eq, Structural)]
pub enum Severity {
    Error,
    Warning,
    /// Does not fail a run on its own. A string added to English today is
    /// legitimately untranslated until the next translation pass.
    Info,
}

#[derive(Debug, Clone, Copy, PartialEq, Eq, Structural)]
pub enum Kind {
    MissingKey,
    ExtraKey,
    PlaceholderCountMismatch,
    PlaceholderNameMismatch,
    /// The target wrote an interpolation in a style this library does not
    /// read, where the source had a real placeholder.
    PlaceholderStyleMismatch,
    /// A construct from a convention this project does not use. The loader
    /// renders it to the user verbatim.
    ConventionMismatch,
    EmptyValue,
    Untranslated,
    DuplicateKeyWithinFile,
    /// A path that is an object in one locale and a string in another.
    StructureMismatch,
}

/// What proves a finding. Every variant is metadata about the strings;
/// none of them is a string a translator wrote.
#[derive(Debug, Clone, PartialEq, Eq)]
pub enum Evidence {
    Tokens { source: Vec<String>, target: Vec<String> },
    Counts { source: usize, target: usize },
    Styles { source: Interpolation, target: Interpolation },
    Shapes { source: Shape, target: Shape },
    Occurrences { occurrences: usize },
    Foreign { construct: Construct, offset: usize },
}

/// Evidence as the specification sees it.
pub enum Proof {
    Tokens(Seq<Seq<char>>, Seq<Seq<char>>),
    Counts(nat, nat),
    Styles(Interpolation, Interpolation),
    Shapes(Shape, Shape),
    Occurrences(nat),
    Foreign(Construct, nat),
}

impl View for Evidence {
    type V = Proof;

    open spec fn view(&self) -> Proof {
        match self {
            Evidence::Tokens { source, target } => Proof::Tokens(texts(source@), texts(target@)),
            Evidence::Counts { source, target } => Proof::Counts(*source as nat, *target as nat),
            Evidence::Styles { source, target } => Proof::Styles(*source, *target),
            Evidence::Shapes { source, target } => Proof::Shapes(*source, *target),
            Evidence::Occurrences { occurrences } => Proof::Occurrences(*occurrences as nat),
            Evidence::Foreign { construct, offset } => Proof::Foreign(*construct, *offset as nat),
        }
    }
}

#[derive(Debug, Clone, PartialEq, Eq)]
pub struct Finding {
    pub severity: Severity,
    pub kind: Kind,
    pub file: String,
    pub key: String,
    pub evidence: Option<Evidence>,
}

/// A finding as the specification sees it. The key is held as its UTF-8
/// bytes, the form a plural base is cut in.
pub struct Reported {
    pub severity: Severity,
    pub kind: Kind,
    pub file: Seq<char>,
    pub key: Seq<u8>,
    pub evidence: Option<Proof>,
}

impl View for Finding {
    type V = Reported;

    open spec fn view(&self) -> Reported {
        Reported {
            severity: self.severity,
            kind: self.kind,
            file: self.file@,
            key: utf8(self.key@),
            evidence: match self.evidence {
                Some(e) => Some(e@),
                None => None,
            },
        }
    }
}

pub open spec fn reports(v: Seq<Finding>) -> Seq<Reported> {
    v.map_values(|f: Finding| f@)
}

// ---------------------------------------------------------------------
// Token names
// ---------------------------------------------------------------------

/// The distinct names among `tokens`, in byte order.
pub open spec fn spec_names(tokens: Seq<Seq<char>>) -> Seq<Seq<char>> {
    choose|s: Seq<Seq<char>>| ascending(s) && s.to_set() == tokens.to_set()
}

/// The distinct placeholder names of a message, sorted.
pub fn names(tokens: &Vec<Token>) -> (r: Vec<String>)
    ensures
        texts(r@) == spec_names(tokens@.map_values(|t: Token| t.name@)),
{
    let ghost all = tokens@.map_values(|t: Token| t.name@);
    let mut list: Vec<String> = Vec::new();
    let mut i: usize = 0;
    while i < tokens.len()
        invariant
            0 <= i <= tokens@.len(),
            all == tokens@.map_values(|t: Token| t.name@),
            list@.len() == i,
            texts(list@) == all.subrange(0, i as int),
        decreases tokens@.len() - i,
    {
        list.push(tokens[i].name.clone());
        assert(texts(list@)[i as int] == all[i as int]);
        assert(texts(list@) =~= all.subrange(0, i + 1));
        i += 1;
    }
    assert(all.subrange(0, all.len() as int) =~= all);
    let out = crate::text::sort_distinct(&list);
    proof {
        let s = spec_names(all);
        assert(ascending(texts(out@)) && texts(out@).to_set() == all.to_set());
        lemma_ascending_unique(s, texts(out@));
    }
    out
}

// ---------------------------------------------------------------------
// Catalogues
// ---------------------------------------------------------------------

/// One catalogue, as the audit sees it.
#[derive(Debug, Clone, PartialEq, Eq)]
pub struct Catalogue {
    pub path: String,
    pub locale: Option<String>,
    pub entries: Vec<Entry>,
    pub duplicates: Vec<Duplicate>,
}

/// A catalogue as the specification sees it.
pub struct Contents {
    pub path: Seq<char>,
    pub locale: Option<Seq<char>>,
    pub entries: Seq<EntryModel>,
    pub duplicates: Seq<(Seq<char>, nat)>,
}

pub open spec fn duplicate_view(d: Duplicate) -> (Seq<char>, nat) {
    (d.key@, d.occurrences as nat)
}

impl View for Catalogue {
    type V = Contents;

    open spec fn view(&self) -> Contents {
        Contents {
            path: self.path@,
            locale: match self.locale {
                Some(l) => Some(l@),
                None => None,
            },
            entries: self.entries@.map_values(|e: Entry| e@),
            duplicates: self.duplicates@.map_values(|d: Duplicate| duplicate_view(d)),
        }
    }
}

/// How many of the first `n` entries are translatable: every shape but an
/// object, which is structure on the way down.
pub open spec fn translatable_upto(es: Seq<EntryModel>, n: int) -> nat
    decreases n,
{
    if n <= 0 {
        0
    } else {
        translatable_upto(es, n - 1) + if es[n - 1].shape != Shape::Object {
            1nat
        } else {
            0nat
        }
    }
}

/// The entries whose key is not metadata under `m`, in order.
pub open spec fn message_entries(es: Seq<EntryModel>, m: crate::library::Metadata) -> Seq<EntryModel>
    decreases es.len(),
{
    if es.len() == 0 {
        seq![]
    } else if is_metadata_key(m, utf8(es.last().key)) {
        message_entries(es.drop_last(), m)
    } else {
        message_entries(es.drop_last(), m).push(es.last())
    }
}

/// The duplicates whose key is not metadata under `m`, in order.
pub open spec fn message_duplicates(ds: Seq<(Seq<char>, nat)>, m: crate::library::Metadata) -> Seq<(Seq<char>, nat)>
    decreases ds.len(),
{
    if ds.len() == 0 {
        seq![]
    } else if is_metadata_key(m, utf8(ds.last().0)) {
        message_duplicates(ds.drop_last(), m)
    } else {
        message_duplicates(ds.drop_last(), m).push(ds.last())
    }
}

impl Catalogue {
    /// Translatable keys. The objects on the way down are structure, not
    /// something anybody translates.
    pub fn key_count(&self) -> (r: usize)
        ensures
            r == translatable_upto(self@.entries, self@.entries.len() as int),
    {
        let mut n: usize = 0;
        let mut i: usize = 0;
        while i < self.entries.len()
            invariant
                0 <= i <= self.entries@.len(),
                n == translatable_upto(self@.entries, i as int),
                n <= i,
            decreases self.entries@.len() - i,
        {
            if self.entries[i].shape != Shape::Object {
                n += 1;
            }
            i += 1;
        }
        n
    }

    /// Drop the keys this library calls metadata.
    ///
    /// Done here rather than in the reader because identification reads
    /// the raw key set: `@greeting` beside `greeting` is the evidence that
    /// says the file is ARB.
    pub fn without_metadata(self, library: &Library) -> (r: Self)
        ensures
            r@.path == self@.path,
            r@.locale == self@.locale,
            r@.entries == message_entries(self@.entries, spec_metadata(library.id)),
            r@.duplicates == message_duplicates(self@.duplicates, spec_metadata(library.id)),
    {
        let ghost m = spec_metadata(library.id);
        let mut entries: Vec<Entry> = Vec::new();
        let mut i: usize = 0;
        while i < self.entries.len()
            invariant
                0 <= i <= self.entries@.len(),
                m == spec_metadata(library.id),
                entries@.map_values(|e: Entry| e@) == message_entries(
                    self@.entries.subrange(0, i as int),
                    m,
                ),
            decreases self.entries@.len() - i,
        {
            let ghost before = entries@.map_values(|e: Entry| e@);
            proof {
                let sub = self@.entries.subrange(0, i + 1);
                assert(sub.drop_last() =~= self@.entries.subrange(0, i as int));
                assert(sub.last() == self.entries@[i as int]@);
            }
            let ghost sub = self@.entries.subrange(0, i + 1);
            if !library.is_metadata(self.entries[i].key.as_str()) {
                entries.push(self.entries[i].copied());
                proof {
                    assert(entries@.map_values(|e: Entry| e@) =~= before.push(self.entries@[i as int]@));
                    assert(message_entries(sub, m) == message_entries(sub.drop_last(), m).push(sub.last()));
                }
            } else {
                assert(message_entries(sub, m) == message_entries(sub.drop_last(), m));
            }
            i += 1;
        }
        let mut duplicates: Vec<Duplicate> = Vec::new();
        let mut i: usize = 0;
        while i < self.duplicates.len()
            invariant
                0 <= i <= self.duplicates@.len(),
                m == spec_metadata(library.id),
                duplicates@.map_values(|d: Duplicate| duplicate_view(d)) == message_duplicates(
                    self@.duplicates.subrange(0, i as int),
                    m,
                ),
            decreases self.duplicates@.len() - i,
        {
            let ghost before = duplicates@.map_values(|d: Duplicate| duplicate_view(d));
            proof {
                let sub = self@.duplicates.subrange(0, i + 1);
                assert(sub.drop_last() =~= self@.duplicates.subrange(0, i as int));
                assert(sub.last() == duplicate_view(self.duplicates@[i as int]));
            }
            let ghost sub = self@.duplicates.subrange(0, i + 1);
            if !library.is_metadata(self.duplicates[i].key.as_str()) {
                duplicates.push(self.duplicates[i].copied());
                proof {
                    assert(duplicates@.map_values(|d: Duplicate| duplicate_view(d)) =~= before.push(
                        duplicate_view(self.duplicates@[i as int]),
                    ));
                    assert(message_duplicates(sub, m) == message_duplicates(sub.drop_last(), m).push(sub.last()));
                }
            } else {
                assert(message_duplicates(sub, m) == message_duplicates(sub.drop_last(), m));
            }
            i += 1;
        }
        proof {
            assert(self@.entries.subrange(0, self@.entries.len() as int) =~= self@.entries);
            assert(self@.duplicates.subrange(0, self@.duplicates.len() as int) =~= self@.duplicates);
        }
        Catalogue { path: self.path, locale: self.locale, entries, duplicates }
    }
}

#[derive(Debug, Clone, Copy, PartialEq, Eq, Structural)]
pub struct Options {
    pub library: Id,
    /// The key itself is the English string, as in a VS Code
    /// `bundle.l10n.json`. A property of the layout, so it arrives here
    /// rather than being read off the library.
    pub keys_are_source: bool,
}

// ---------------------------------------------------------------------
// The checks, as the specification states them
// ---------------------------------------------------------------------

/// Which text of an entry is the English one: none but a string's; the key
/// itself where keys are the source.
pub open spec fn source_text_of(e: EntryModel, keys_are_source: bool) -> Option<Seq<char>> {
    if e.shape != Shape::Text {
        None
    } else if keys_are_source {
        Some(e.key)
    } else {
        e.text
    }
}

pub open spec fn report(severity: Severity, kind: Kind, file: Seq<char>, key: Seq<u8>, evidence: Option<Proof>) -> Reported {
    Reported { severity, kind, file, key, evidence }
}

pub open spec fn foreign_report(path: Seq<char>, key: Seq<char>, f: Foreign) -> Reported {
    report(Severity::Error, Kind::ConventionMismatch, path, utf8(key), Some(Proof::Foreign(f.construct, f.offset as nat)))
}

/// The constructs from another convention in one entry's English text.
pub open spec fn convention_of(path: Seq<char>, e: EntryModel, g: Grammar, keys_are_source: bool) -> Seq<Reported> {
    match source_text_of(e, keys_are_source) {
        Some(t) => spec_parse(g, t).foreign.map_values(|f: Foreign| foreign_report(path, e.key, f)),
        None => seq![],
    }
}

pub open spec fn convention_upto(c: Contents, g: Grammar, keys_are_source: bool, n: int) -> Seq<Reported>
    decreases n,
{
    if n <= 0 {
        seq![]
    } else {
        convention_upto(c, g, keys_are_source, n - 1) + convention_of(c.path, c.entries[n - 1], g, keys_are_source)
    }
}

/// `convention-mismatch`: every construct from another convention, entry
/// by entry, in order of offset.
pub open spec fn spec_convention(c: Contents, g: Grammar, keys_are_source: bool) -> Seq<Reported> {
    convention_upto(c, g, keys_are_source, c.entries.len() as int)
}

/// `duplicate-key-within-file`: one finding per duplicated key, with its
/// count.
pub open spec fn spec_duplicate_findings(c: Contents) -> Seq<Reported> {
    c.duplicates.map_values(
        |d: (Seq<char>, nat)|
            report(Severity::Error, Kind::DuplicateKeyWithinFile, c.path, utf8(d.0), Some(Proof::Occurrences(d.1))),
    )
}

pub open spec fn empty_of(path: Seq<char>, e: EntryModel) -> Seq<Reported> {
    match e.text {
        Some(t) => if blank(t) {
            seq![report(Severity::Warning, Kind::EmptyValue, path, utf8(e.key), None)]
        } else {
            seq![]
        },
        None => seq![],
    }
}

pub open spec fn empty_upto(c: Contents, n: int) -> Seq<Reported>
    decreases n,
{
    if n <= 0 {
        seq![]
    } else {
        empty_upto(c, n - 1) + empty_of(c.path, c.entries[n - 1])
    }
}

/// `empty-value`: every string that is empty once trimmed.
pub open spec fn spec_empty_findings(c: Contents) -> Seq<Reported> {
    empty_upto(c, c.entries.len() as int)
}

// ---------------------------------------------------------------------
// Finding makers
// ---------------------------------------------------------------------

/// Which text of an entry is the English one.
pub fn source_text(entry: &Entry, keys_are_source: bool) -> (r: Option<&str>)
    ensures
        match r {
            Some(t) => source_text_of(entry@, keys_are_source) == Some(t@),
            None => source_text_of(entry@, keys_are_source) is None,
        },
{
    if entry.shape != Shape::Text {
        return None;
    }
    if keys_are_source {
        return Some(entry.key.as_str());
    }
    match &entry.text {
        Some(t) => Some(t.as_str()),
        None => None,
    }
}

/// `out` with `more` after it.
fn extend(out: &mut Vec<Finding>, more: Vec<Finding>)
    ensures
        reports(final(out)@) == reports(old(out)@) + reports(more@),
{
    let mut more = more;
    let ghost a = out@;
    let ghost b = more@;
    out.append(&mut more);
    assert(reports(out@) =~= reports(a) + reports(b));
}

/// Constructs from another convention. The loader renders them verbatim,
/// which is a defect the identified library makes nameable.
pub fn convention_findings(file: &Catalogue, options: Options) -> (r: Vec<Finding>)
    ensures
        reports(r@) == spec_convention(file@, spec_grammar(options.library), options.keys_are_source),
{
    let grammar = options.library.library().grammar();
    let ghost c = file@;
    let mut out: Vec<Finding> = Vec::new();
    let mut i: usize = 0;
    while i < file.entries.len()
        invariant
            0 <= i <= file.entries@.len(),
            c == file@,
            grammar == spec_grammar(options.library),
            reports(out@) == convention_upto(c, grammar, options.keys_are_source, i as int),
        decreases file.entries@.len() - i,
    {
        let entry = &file.entries[i];
        proof {
            assert(c.entries[i as int] == entry@);
        }
        if let Some(text) = source_text(entry, options.keys_are_source) {
            let parsed = crate::message::parse(grammar, text);
            let ghost start = reports(out@);
            let mut k: usize = 0;
            while k < parsed.foreign.len()
                invariant
                    0 <= k <= parsed.foreign@.len(),
                    reports(out@) == start + parsed@.foreign.subrange(0, k as int).map_values(
                        |f: Foreign| foreign_report(file.path@, entry.key@, f),
                    ),
                decreases parsed.foreign@.len() - k,
            {
                let found = parsed.foreign[k];
                let ghost before = out@;
                out.push(
                    Finding {
                        severity: Severity::Error,
                        kind: Kind::ConventionMismatch,
                        file: file.path.clone(),
                        key: entry.key.clone(),
                        evidence: Some(Evidence::Foreign { construct: found.construct, offset: found.offset }),
                    },
                );
                proof {
                    assert(reports(out@) =~= reports(before).push(foreign_report(file.path@, entry.key@, found)));
                    assert(parsed@.foreign.subrange(0, k + 1) =~= parsed@.foreign.subrange(0, k as int).push(found));
                    assert(parsed@.foreign.subrange(0, k + 1).map_values(|f: Foreign| foreign_report(file.path@, entry.key@, f))
                        =~= parsed@.foreign.subrange(0, k as int).map_values(|f: Foreign| foreign_report(file.path@, entry.key@, f)).push(
                        foreign_report(file.path@, entry.key@, found)));
                }
                k += 1;
            }
            proof {
                assert(parsed@.foreign.subrange(0, parsed@.foreign.len() as int) =~= parsed@.foreign);
            }
        } else {
            assert(convention_of(c.path, c.entries[i as int], grammar, options.keys_are_source) =~= seq![]);
            assert(reports(out@) =~= reports(out@) + seq![]);
        }
        i += 1;
    }
    out
}

/// A key the file defines twice. The loader keeps the last, so the other
/// translation is text nobody will ever see.
pub fn duplicate_findings(file: &Catalogue) -> (r: Vec<Finding>)
    ensures
        reports(r@) == spec_duplicate_findings(file@),
{
    let mut out: Vec<Finding> = Vec::new();
    let mut i: usize = 0;
    while i < file.duplicates.len()
        invariant
            0 <= i <= file.duplicates@.len(),
            out@.len() == i,
            reports(out@) == spec_duplicate_findings(file@).subrange(0, i as int),
        decreases file.duplicates@.len() - i,
    {
        let duplicate = &file.duplicates[i];
        let ghost before = out@;
        out.push(
            Finding {
                severity: Severity::Error,
                kind: Kind::DuplicateKeyWithinFile,
                file: file.path.clone(),
                key: duplicate.key.clone(),
                evidence: Some(Evidence::Occurrences { occurrences: duplicate.occurrences }),
            },
        );
        proof {
            assert(file@.duplicates[i as int] == duplicate_view(*duplicate));
            assert(spec_duplicate_findings(file@)[i as int] == out@[i as int]@);
            assert(reports(out@) =~= spec_duplicate_findings(file@).subrange(0, i + 1));
        }
        i += 1;
    }
    proof {
        assert(spec_duplicate_findings(file@).subrange(0, file.duplicates@.len() as int) =~= spec_duplicate_findings(file@));
    }
    out
}

/// Every string that is empty, or only whitespace.
pub fn empty_findings(file: &Catalogue) -> (r: Vec<Finding>)
    ensures
        reports(r@) == spec_empty_findings(file@),
{
    let ghost c = file@;
    let mut out: Vec<Finding> = Vec::new();
    let mut i: usize = 0;
    while i < file.entries.len()
        invariant
            0 <= i <= file.entries@.len(),
            c == file@,
            reports(out@) == empty_upto(c, i as int),
        decreases file.entries@.len() - i,
    {
        let entry = &file.entries[i];
        proof {
            assert(c.entries[i as int] == entry@);
        }
        let ghost before = out@;
        let empty = match &entry.text {
            Some(t) => is_blank(t.as_str()),
            None => false,
        };
        if empty {
            out.push(
                Finding {
                    severity: Severity::Warning,
                    kind: Kind::EmptyValue,
                    file: file.path.clone(),
                    key: entry.key.clone(),
                    evidence: None,
                },
            );
            assert(reports(out@) =~= reports(before) + empty_of(c.path, entry@));
        } else {
            assert(reports(out@) =~= reports(before) + empty_of(c.path, entry@));
        }
        i += 1;
    }
    out
}

// ---------------------------------------------------------------------
// Comparing two catalogues, as the specification states it
// ---------------------------------------------------------------------

/// The index of the last of the first `n` entries at `key`, or -1. A
/// loader keeps the last of two entries at one path, and so does the
/// comparison.
pub open spec fn last_at(es: Seq<EntryModel>, key: Seq<char>, n: int) -> int
    decreases n,
{
    if n <= 0 {
        -1
    } else if es[n - 1].key == key {
        n - 1
    } else {
        last_at(es, key, n - 1)
    }
}

/// The entry at `key`, the last one where there are several.
pub open spec fn lookup(es: Seq<EntryModel>, key: Seq<char>) -> Option<EntryModel> {
    let i = last_at(es, key, es.len() as int);
    if i < 0 {
        None
    } else {
        Some(es[i])
    }
}

pub proof fn lemma_last_at(es: Seq<EntryModel>, key: Seq<char>, n: int)
    requires
        0 <= n <= es.len(),
    ensures
        -1 <= last_at(es, key, n) < n,
        last_at(es, key, n) >= 0 ==> es[last_at(es, key, n)].key == key,
        last_at(es, key, n) < 0 ==> forall|j: int| 0 <= j < n ==> es[j].key != key,
    decreases n,
{
    if n > 0 {
        lemma_last_at(es, key, n - 1);
    }
}

/// The path holds different kinds of thing in the two files.
pub open spec fn diverges(e: EntryModel, target: Seq<EntryModel>) -> bool {
    match lookup(target, e.key) {
        Some(o) => o.shape != e.shape,
        None => false,
    }
}

pub open spec fn structure_of(e: EntryModel, t: Contents) -> Seq<Reported> {
    if diverges(e, t.entries) {
        seq![report(Severity::Error, Kind::StructureMismatch, t.path, utf8(e.key), Some(Proof::Shapes(e.shape, lookup(t.entries, e.key)->0.shape)))]
    } else {
        seq![]
    }
}

pub open spec fn structure_upto(r: Contents, t: Contents, n: int) -> Seq<Reported>
    decreases n,
{
    if n <= 0 {
        seq![]
    } else {
        structure_upto(r, t, n - 1) + structure_of(r.entries[n - 1], t)
    }
}

/// The paths of the first `n` source entries that diverge, in order.
pub open spec fn diverged_upto(r: Contents, t: Contents, n: int) -> Seq<Seq<char>>
    decreases n,
{
    if n <= 0 {
        seq![]
    } else if diverges(r.entries[n - 1], t.entries) {
        diverged_upto(r, t, n - 1).push(r.entries[n - 1].key)
    } else {
        diverged_upto(r, t, n - 1)
    }
}

/// `key` is a path below `p`: `p`, a dot, and more.
pub open spec fn under(key: Seq<u8>, p: Seq<u8>) -> bool {
    key.len() > p.len() && key.subrange(0, p.len() as int) == p && key[p.len() as int] == 0x2Eu8
}

/// `key` lies below a path whose structure diverged.
pub open spec fn below(key: Seq<u8>, diverged: Seq<Seq<char>>) -> bool {
    exists|i: int| 0 <= i < diverged.len() && under(key, #[trigger] utf8(diverged[i]))
}

/// A key as the missing and extra checks count it: its plural base where
/// the library writes plurals as key suffixes.
pub open spec fn base_of(key: Seq<char>, fold: bool) -> Seq<u8> {
    if fold {
        spec_plural_base(utf8(key))
    } else {
        utf8(key)
    }
}

/// Every path a file defines, objects included, reduced to its base.
pub open spec fn bases(c: Contents, fold: bool) -> Seq<Seq<u8>> {
    c.entries.map_values(|e: EntryModel| base_of(e.key, fold))
}

/// An entry the missing and extra checks look at: not an object, and not
/// below a diverged path.
pub open spec fn counted(e: EntryModel, diverged: Seq<Seq<char>>) -> bool {
    e.shape != Shape::Object && !below(utf8(e.key), diverged)
}

/// No earlier counted entry has the same base as entry `i`.
pub open spec fn first_of_base(es: Seq<EntryModel>, i: int, diverged: Seq<Seq<char>>, fold: bool) -> bool {
    forall|j: int|
        0 <= j < i && counted(es[j], diverged) ==> #[trigger] base_of(es[j].key, fold) != base_of(es[i].key, fold)
}

pub open spec fn absent_of(
    es: Seq<EntryModel>,
    i: int,
    present: Seq<Seq<u8>>,
    diverged: Seq<Seq<char>>,
    fold: bool,
    path: Seq<char>,
    kind: Kind,
) -> Seq<Reported> {
    let e = es[i];
    if counted(e, diverged) && !present.contains(base_of(e.key, fold)) && first_of_base(es, i, diverged, fold) {
        seq![report(Severity::Error, kind, path, base_of(e.key, fold), None)]
    } else {
        seq![]
    }
}

/// Keys among the first `n` whose base is not in `present`, one finding
/// per base.
pub open spec fn absent_upto(
    es: Seq<EntryModel>,
    present: Seq<Seq<u8>>,
    diverged: Seq<Seq<char>>,
    fold: bool,
    path: Seq<char>,
    kind: Kind,
    n: int,
) -> Seq<Reported>
    decreases n,
{
    if n <= 0 {
        seq![]
    } else {
        absent_upto(es, present, diverged, fold, path, kind, n - 1) + absent_of(es, n - 1, present, diverged, fold, path, kind)
    }
}

/// The one placeholder finding a key deserves, or none: style before count
/// before names.
pub open spec fn spec_placeholder(source: Seq<char>, target: Seq<char>, g: Grammar) -> Option<(Kind, Proof)> {
    let s = spec_parse(g, source);
    let t = spec_parse(g, target);
    if s.tokens.len() > 0 && t.others.len() > 0 {
        Some((Kind::PlaceholderStyleMismatch, Proof::Styles(g.interpolation, t.others[0])))
    } else if s.tokens.len() != t.tokens.len() {
        Some((Kind::PlaceholderCountMismatch, Proof::Counts(s.tokens.len(), t.tokens.len())))
    } else if spec_names(s.tokens) != spec_names(t.tokens) {
        Some((Kind::PlaceholderNameMismatch, Proof::Tokens(spec_names(s.tokens), spec_names(t.tokens))))
    } else {
        None
    }
}

/// The key already has a convention finding.
pub open spec fn flagged(conventions: Seq<Reported>, key: Seq<char>) -> bool {
    exists|i: int| 0 <= i < conventions.len() && #[trigger] conventions[i].key == utf8(key)
}

/// What comparing one source entry's text with its translation finds.
pub open spec fn compare_of(e: EntryModel, t: Contents, g: Grammar, keys_are_source: bool, conventions: Seq<Reported>) -> Seq<Reported> {
    match source_text_of(e, keys_are_source) {
        None => seq![],
        Some(st) => match lookup(t.entries, e.key) {
            None => seq![],
            Some(te) => match te.text {
                None => seq![],
                Some(tt) => if blank(tt) {
                    seq![]
                } else {
                    match spec_placeholder(st, tt, g) {
                        Some((kind, proof)) if !flagged(conventions, e.key) => seq![
                            report(Severity::Error, kind, t.path, utf8(e.key), Some(proof)),
                        ],
                        _ => if st.len() > 0 && st == tt {
                            seq![report(Severity::Info, Kind::Untranslated, t.path, utf8(e.key), None)]
                        } else {
                            seq![]
                        },
                    }
                },
            },
        },
    }
}

pub open spec fn compare_upto(r: Contents, t: Contents, g: Grammar, keys_are_source: bool, conventions: Seq<Reported>, n: int) -> Seq<Reported>
    decreases n,
{
    if n <= 0 {
        seq![]
    } else {
        compare_upto(r, t, g, keys_are_source, conventions, n - 1) + compare_of(r.entries[n - 1], t, g, keys_are_source, conventions)
    }
}

/// Everything one target says against the source, in the order reported:
/// its duplicates, its foreign constructs, structure, missing keys, extra
/// keys, placeholders and untranslated text, then empty values.
pub open spec fn spec_against(r: Contents, t: Contents, id: Id, keys_are_source: bool) -> Seq<Reported> {
    let g = spec_grammar(id);
    let fold = spec_plurals(id) == Plurals::KeySuffix;
    let conventions = spec_convention(t, g, keys_are_source);
    let diverged = diverged_upto(r, t, r.entries.len() as int);
    spec_duplicate_findings(t) + conventions + structure_upto(r, t, r.entries.len() as int)
        + absent_upto(r.entries, bases(t, fold), diverged, fold, t.path, Kind::MissingKey, r.entries.len() as int)
        + absent_upto(t.entries, bases(r, fold), diverged, fold, t.path, Kind::ExtraKey, t.entries.len() as int)
        + compare_upto(r, t, g, keys_are_source, conventions, r.entries.len() as int)
        + spec_empty_findings(t)
}

pub open spec fn audit_upto(files: Seq<Contents>, source: int, id: Id, keys_are_source: bool, n: int) -> Seq<Reported>
    decreases n,
{
    if n <= 0 {
        seq![]
    } else if n - 1 == source {
        audit_upto(files, source, id, keys_are_source, n - 1) + spec_duplicate_findings(files[source])
            + spec_empty_findings(files[source])
    } else {
        audit_upto(files, source, id, keys_are_source, n - 1) + spec_against(files[source], files[n - 1], id, keys_are_source)
    }
}

/// Every finding of an audit against `files[source]`: the source's own
/// foreign constructs, then each file in order — the source's duplicates
/// and empty values, or everything another file says against it.
pub open spec fn spec_audit(files: Seq<Contents>, source: int, id: Id, keys_are_source: bool) -> Seq<Reported> {
    spec_convention(files[source], spec_grammar(id), keys_are_source) + audit_upto(files, source, id, keys_are_source, files.len() as int)
}

// ---------------------------------------------------------------------
// Comparing two catalogues
// ---------------------------------------------------------------------

pub open spec fn models(entries: Seq<Entry>) -> Seq<EntryModel> {
    entries.map_values(|e: Entry| e@)
}

/// `index` maps each key of `es` to the position of its last entry, and
/// holds no other key.
pub open spec fn indexes_last(index: Map<Seq<char>, usize>, es: Seq<EntryModel>) -> bool {
    forall|key: Seq<char>|
        #[trigger] index.contains_key(key) == (last_at(es, key, es.len() as int) >= 0)
            && (index.contains_key(key) ==> index[key] as int == last_at(es, key, es.len() as int))
}

/// Each key of `entries` with the position of its last entry: built in
/// one pass, so that looking a key up costs no scan of the catalogue.
pub fn last_index(entries: &Vec<Entry>) -> (r: StringHashMap<usize>)
    ensures
        indexes_last(r@, models(entries@)),
{
    let ghost es = models(entries@);
    let mut index: StringHashMap<usize> = StringHashMap::new();
    let mut i: usize = 0;
    while i < entries.len()
        invariant
            0 <= i <= entries@.len(),
            es == models(entries@),
            forall|key: Seq<char>|
                #[trigger] index@.contains_key(key) == (last_at(es, key, i as int) >= 0)
                    && (index@.contains_key(key) ==> index@[key] as int == last_at(es, key, i as int)),
        decreases entries@.len() - i,
    {
        let ghost before = index@;
        index.insert(entries[i].key.clone(), i);
        proof {
            assert(es[i as int].key == entries@[i as int].key@);
            assert forall|key: Seq<char>|
                #[trigger] index@.contains_key(key) == (last_at(es, key, i + 1) >= 0)
                    && (index@.contains_key(key) ==> index@[key] as int == last_at(es, key, i + 1)) by {
                lemma_last_at(es, key, i as int);
                if key != es[i as int].key {
                    assert(before.contains_key(key) == (last_at(es, key, i as int) >= 0));
                }
            }
        }
        i += 1;
    }
    index
}

/// The index of the entry at `key`, the last one where there are several.
pub fn find_last(index: &StringHashMap<usize>, entries: &Vec<Entry>, key: &str) -> (r: Option<usize>)
    requires
        indexes_last(index@, models(entries@)),
    ensures
        match r {
            Some(i) => i as int == last_at(models(entries@), key@, entries@.len() as int) && i < entries@.len(),
            None => last_at(models(entries@), key@, entries@.len() as int) < 0,
        },
{
    proof {
        lemma_last_at(models(entries@), key@, entries@.len() as int);
        assert(index@.contains_key(key@) == (last_at(models(entries@), key@, entries@.len() as int) >= 0));
    }
    match index.get(key) {
        Some(i) => Some(*i),
        None => None,
    }
}

/// The paths that hold different kinds of thing in the two files, each
/// with its finding.
pub fn structure_findings(reference: &Catalogue, target: &Catalogue, findings: &mut Vec<Finding>) -> (r: Vec<String>)
    ensures
        reports(final(findings)@) == reports(old(findings)@) + structure_upto(reference@, target@, reference@.entries.len() as int),
        texts(r@) == diverged_upto(reference@, target@, reference@.entries.len() as int),
{
    let ghost rc = reference@;
    let ghost tc = target@;
    let ghost start = reports(findings@);
    let index = last_index(&target.entries);
    let mut diverged: Vec<String> = Vec::new();
    let mut i: usize = 0;
    while i < reference.entries.len()
        invariant
            0 <= i <= reference.entries@.len(),
            rc == reference@,
            tc == target@,
            reports(findings@) == start + structure_upto(rc, tc, i as int),
            texts(diverged@) == diverged_upto(rc, tc, i as int),
            indexes_last(index@, models(target.entries@)),
        decreases reference.entries@.len() - i,
    {
        let entry = &reference.entries[i];
        proof {
            assert(rc.entries[i as int] == entry@);
            lemma_last_at(tc.entries, entry.key@, tc.entries.len() as int);
        }
        let ghost before = findings@;
        match find_last(&index, &target.entries, entry.key.as_str()) {
            Some(j) => {
                let other = &target.entries[j];
                proof {
                    assert(tc.entries[j as int] == other@);
                }
                if other.shape != entry.shape {
                    let ghost d = diverged@;
                    diverged.push(entry.key.clone());
                    findings.push(
                        Finding {
                            severity: Severity::Error,
                            kind: Kind::StructureMismatch,
                            file: target.path.clone(),
                            key: entry.key.clone(),
                            evidence: Some(Evidence::Shapes { source: entry.shape, target: other.shape }),
                        },
                    );
                    proof {
                        assert(texts(diverged@) =~= texts(d).push(entry.key@));
                        assert(reports(findings@) =~= reports(before) + structure_of(entry@, tc));
                    }
                } else {
                    assert(reports(findings@) =~= reports(before) + structure_of(entry@, tc));
                }
            },
            None => {
                assert(reports(findings@) =~= reports(before) + structure_of(entry@, tc));
            },
        }
        i += 1;
    }
    diverged
}

/// Whether `key` lies below a path whose structure diverged.
pub fn is_below(key: &str, diverged: &Vec<String>) -> (r: bool)
    ensures
        r == below(utf8(key@), texts(diverged@)),
{
    let k = key.as_bytes();
    let mut i: usize = 0;
    while i < diverged.len()
        invariant
            0 <= i <= diverged@.len(),
            k@ == utf8(key@),
            forall|j: int| 0 <= j < i ==> !under(k@, #[trigger] utf8(texts(diverged@)[j])),
        decreases diverged@.len() - i,
    {
        let p = diverged[i].as_str().as_bytes();
        proof {
            assert(texts(diverged@)[i as int] == diverged@[i as int]@);
        }
        if k.len() > p.len() && crate::text::starts_with(k, p) && k[p.len()] == 0x2Eu8 {
            assert(under(k@, utf8(texts(diverged@)[i as int])));
            return true;
        }
        i += 1;
    }
    false
}

/// A key as the missing and extra checks count it.
pub fn base_of_key(key: &str, fold: bool) -> (r: &str)
    ensures
        utf8(r@) == base_of(key@, fold),
{
    if fold {
        crate::message::plural_base(key)
    } else {
        key
    }
}

pub open spec fn byte_texts(v: Seq<&str>) -> Seq<Seq<u8>> {
    v.map_values(|s: &str| utf8(s@))
}

/// Every path a file defines, reduced to its plural base. Objects count: a
/// path that is an object here and a string there is a structure mismatch,
/// not an extra key.
pub fn bases_of(file: &Catalogue, fold: bool) -> (r: Vec<&str>)
    ensures
        byte_texts(r@) == bases(file@, fold),
{
    let mut out: Vec<&str> = Vec::new();
    let mut i: usize = 0;
    while i < file.entries.len()
        invariant
            0 <= i <= file.entries@.len(),
            out@.len() == i,
            byte_texts(out@) == bases(file@, fold).subrange(0, i as int),
        decreases file.entries@.len() - i,
    {
        let ghost before = out@;
        out.push(base_of_key(file.entries[i].key.as_str(), fold));
        proof {
            assert(file@.entries[i as int] == file.entries@[i as int]@);
            assert(byte_texts(out@)[i as int] == utf8(out@[i as int]@));
            assert(bases(file@, fold)[i as int] == base_of(file@.entries[i as int].key, fold));
            assert(byte_texts(out@) =~= bases(file@, fold).subrange(0, i + 1));
        }
        i += 1;
    }
    proof {
        assert(bases(file@, fold).subrange(0, file.entries@.len() as int) =~= bases(file@, fold));
    }
    out
}

/// The texts of `set`, gathered once so that asking for one costs no scan.
fn key_set(set: &Vec<&str>) -> (r: StringHashMap<()>)
    ensures
        forall|k: Seq<char>| #[trigger] r@.contains_key(k) == byte_texts(set@).contains(utf8(k)),
{
    let mut found: StringHashMap<()> = StringHashMap::new();
    let mut i: usize = 0;
    while i < set.len()
        invariant
            0 <= i <= set@.len(),
            forall|k: Seq<char>|
                #[trigger] found@.contains_key(k) == byte_texts(set@).subrange(0, i as int).contains(utf8(k)),
        decreases set@.len() - i,
    {
        let ghost before = found@;
        found.insert(crate::text::owned(set[i]), ());
        proof {
            let t = byte_texts(set@);
            assert(t[i as int] == utf8(set@[i as int]@));
            assert(t.subrange(0, i + 1) =~= t.subrange(0, i as int).push(t[i as int]));
            assert forall|k: Seq<char>|
                #[trigger] found@.contains_key(k) == t.subrange(0, i + 1).contains(utf8(k)) by {
                lemma_utf8_injective(k, set@[i as int]@);
                let old_part = t.subrange(0, i as int);
                if old_part.contains(utf8(k)) {
                    let j = choose|j: int| 0 <= j < old_part.len() && #[trigger] old_part[j] == utf8(k);
                    assert(t.subrange(0, i + 1)[j] == utf8(k));
                }
                if k == set@[i as int]@ {
                    assert(t.subrange(0, i + 1)[i as int] == utf8(k));
                }
                if t.subrange(0, i + 1).contains(utf8(k)) && k != set@[i as int]@ {
                    let j = choose|j: int| 0 <= j < i + 1 && #[trigger] t.subrange(0, i + 1)[j] == utf8(k);
                    assert(old_part[j] == utf8(k));
                }
            }
        }
        i += 1;
    }
    proof {
        assert(byte_texts(set@).subrange(0, set@.len() as int) =~= byte_texts(set@));
    }
    found
}

/// Some counted entry before `i` has the base `b`.
pub open spec fn earlier_base(es: Seq<EntryModel>, d: Seq<Seq<char>>, fold: bool, i: int, b: Seq<u8>) -> bool {
    exists|j: int| 0 <= j < i && counted(es[j], d) && #[trigger] base_of(es[j].key, fold) == b
}

pub proof fn lemma_earlier_base(es: Seq<EntryModel>, d: Seq<Seq<char>>, fold: bool, i: int, b: Seq<u8>)
    requires
        0 <= i < es.len(),
    ensures
        earlier_base(es, d, fold, i + 1, b) == (earlier_base(es, d, fold, i, b) || (counted(es[i], d)
            && base_of(es[i].key, fold) == b)),
        first_of_base(es, i, d, fold) == !earlier_base(es, d, fold, i, base_of(es[i].key, fold)),
{
    if earlier_base(es, d, fold, i + 1, b) {
        let j = choose|j: int| 0 <= j < i + 1 && counted(es[j], d) && #[trigger] base_of(es[j].key, fold) == b;
        if j < i {
            assert(earlier_base(es, d, fold, i, b));
        }
    }
    if earlier_base(es, d, fold, i, b) {
        let j = choose|j: int| 0 <= j < i && counted(es[j], d) && #[trigger] base_of(es[j].key, fold) == b;
        assert(0 <= j < i + 1 && counted(es[j], d) && base_of(es[j].key, fold) == b);
    }
    if counted(es[i], d) && base_of(es[i].key, fold) == b {
        assert(0 <= i < i + 1 && counted(es[i], d) && base_of(es[i].key, fold) == b);
    }
    let own = base_of(es[i].key, fold);
    if earlier_base(es, d, fold, i, own) {
        let j = choose|j: int| 0 <= j < i && counted(es[j], d) && #[trigger] base_of(es[j].key, fold) == own;
        assert(!first_of_base(es, i, d, fold));
    }
}

/// Keys of `file` whose base is not in `present`, one finding per base.
/// Reporting the base rather than the variant is what makes a plural
/// finding one line instead of six.
pub fn absent(
    file: &Catalogue,
    present: &Vec<&str>,
    diverged: &Vec<String>,
    fold: bool,
    reported_as: &str,
    kind: Kind,
) -> (r: Vec<Finding>)
    ensures
        reports(r@) == absent_upto(
            file@.entries,
            byte_texts(present@),
            texts(diverged@),
            fold,
            reported_as@,
            kind,
            file@.entries.len() as int,
        ),
{
    let ghost es = file@.entries;
    let ghost p = byte_texts(present@);
    let ghost d = texts(diverged@);
    // The bases already reported, and those the other file has: both
    // asked once per entry, so each is a map rather than a list.
    let present_set = key_set(present);
    let mut seen: StringHashMap<()> = StringHashMap::new();
    let mut out: Vec<Finding> = Vec::new();
    let mut i: usize = 0;
    while i < file.entries.len()
        invariant
            0 <= i <= file.entries@.len(),
            es == file@.entries,
            p == byte_texts(present@),
            d == texts(diverged@),
            reports(out@) == absent_upto(es, p, d, fold, reported_as@, kind, i as int),
            forall|k: Seq<char>|
                #[trigger] present_set@.contains_key(k) == p.contains(utf8(k)),
            forall|k: Seq<char>|
                #[trigger] seen@.contains_key(k) <==> (!p.contains(utf8(k)) && earlier_base(es, d, fold, i as int, utf8(k))),
        decreases file.entries@.len() - i,
    {
        let entry = &file.entries[i];
        proof {
            assert(es[i as int] == entry@);
        }
        let ghost before = out@;
        let ghost seen_before = seen@;
        let ghost b = base_of(entry@.key, fold);
        proof {
            lemma_earlier_base(es, d, fold, i as int, b);
        }
        if entry.shape != Shape::Object && !is_below(entry.key.as_str(), diverged) {
            let base = base_of_key(entry.key.as_str(), fold);
            let fresh = !present_set.contains_key(base) && !seen.contains_key(base);
            proof {
                assert(counted(es[i as int], d));
                assert(utf8(base@) == b);
                assert(fresh == (!p.contains(b) && first_of_base(es, i as int, d, fold)));
            }
            if fresh {
                seen.insert(crate::text::owned(base), ());
                out.push(
                    Finding {
                        severity: Severity::Error,
                        kind,
                        file: crate::text::owned(reported_as),
                        key: crate::text::owned(base),
                        evidence: None,
                    },
                );
                proof {
                    assert(reports(out@) =~= reports(before) + absent_of(es, i as int, p, d, fold, reported_as@, kind));
                    assert forall|k: Seq<char>|
                        #[trigger] seen@.contains_key(k) <==> (!p.contains(utf8(k)) && earlier_base(es, d, fold, i + 1, utf8(k))) by {
                        lemma_earlier_base(es, d, fold, i as int, utf8(k));
                        lemma_utf8_injective(k, base@);
                        assert(seen_before.contains_key(k) <==> (!p.contains(utf8(k)) && earlier_base(es, d, fold, i as int, utf8(k))));
                    }
                }
            } else {
                proof {
                    assert(reports(out@) =~= reports(before) + absent_of(es, i as int, p, d, fold, reported_as@, kind));
                    assert forall|k: Seq<char>|
                        #[trigger] seen@.contains_key(k) <==> (!p.contains(utf8(k)) && earlier_base(es, d, fold, i + 1, utf8(k))) by {
                        lemma_earlier_base(es, d, fold, i as int, utf8(k));
                        lemma_utf8_injective(k, base@);
                    }
                }
            }
        } else {
            proof {
                assert(!counted(es[i as int], d));
                assert(reports(out@) =~= reports(before) + absent_of(es, i as int, p, d, fold, reported_as@, kind));
                assert forall|k: Seq<char>|
                    #[trigger] seen@.contains_key(k) <==> (!p.contains(utf8(k)) && earlier_base(es, d, fold, i + 1, utf8(k))) by {
                    lemma_earlier_base(es, d, fold, i as int, utf8(k));
                }
            }
        }
        i += 1;
    }
    out
}

/// The same texts, as new strings.
fn copy_texts(v: &Vec<String>) -> (r: Vec<String>)
    ensures
        texts(r@) == texts(v@),
{
    let mut out: Vec<String> = Vec::new();
    let mut i: usize = 0;
    while i < v.len()
        invariant
            0 <= i <= v@.len(),
            out@.len() == i,
            texts(out@) == texts(v@).subrange(0, i as int),
        decreases v@.len() - i,
    {
        out.push(v[i].clone());
        assert(texts(out@)[i as int] == texts(v@)[i as int]);
        assert(texts(out@) =~= texts(v@).subrange(0, i + 1));
        i += 1;
    }
    assert(texts(v@).subrange(0, v@.len() as int) =~= texts(v@));
    out
}

/// Whether two lists of texts are the same, item for item.
fn same_texts(a: &Vec<String>, b: &Vec<String>) -> (r: bool)
    ensures
        r == (texts(a@) == texts(b@)),
{
    if a.len() != b.len() {
        assert(texts(a@).len() != texts(b@).len());
        return false;
    }
    let mut i: usize = 0;
    while i < a.len()
        invariant
            a@.len() == b@.len(),
            0 <= i <= a@.len(),
            forall|j: int| 0 <= j < i ==> #[trigger] texts(a@)[j] == texts(b@)[j],
        decreases a@.len() - i,
    {
        if !crate::text::same(a[i].as_str(), b[i].as_str()) {
            assert(texts(a@)[i as int] != texts(b@)[i as int]);
            return false;
        }
        i += 1;
    }
    assert(texts(a@) =~= texts(b@));
    true
}

/// The one placeholder finding a key deserves, or none.
///
/// Style before count before names: a target that wrote its interpolation
/// in another style has token names that are not comparable to the
/// source's, so reporting a name difference on top would be two findings
/// for one mistake. The finding names no file; the caller sets it.
pub fn placeholder_finding(key: &str, source: &str, target: &str, library: &Library) -> (r: Option<Finding>)
    ensures
        match spec_placeholder(source@, target@, spec_grammar(library.id)) {
            Some((kind, proof)) => r matches Some(f) && f@ == report(Severity::Error, kind, Seq::empty(), utf8(key@), Some(proof)),
            None => r is None,
        },
{
    let grammar = library.grammar();
    let source_parsed = crate::message::parse(grammar, source);
    let target_parsed = crate::message::parse(grammar, target);
    // A `{name}` in an i18next catalogue is prose — until the source has a
    // real placeholder at the same key, at which point it is a translator
    // having written the wrong braces.
    if source_parsed.tokens.len() > 0 && target_parsed.others.len() > 0 {
        return Some(finding(key, Kind::PlaceholderStyleMismatch, Evidence::Styles { source: grammar.interpolation, target: target_parsed.others[0] }));
    }
    if source_parsed.tokens.len() != target_parsed.tokens.len() {
        return Some(finding(key, Kind::PlaceholderCountMismatch, Evidence::Counts { source: source_parsed.tokens.len(), target: target_parsed.tokens.len() }));
    }
    // The failure machine translation produces: same count, renamed token.
    let source_names = names(&source_parsed.tokens);
    let target_names = names(&target_parsed.tokens);
    if !same_texts(&source_names, &target_names) {
        return Some(finding(key, Kind::PlaceholderNameMismatch, Evidence::Tokens { source: source_names, target: target_names }));
    }
    None
}

/// An error at `key`, with what proves it and no file yet.
pub fn finding(key: &str, kind: Kind, evidence: Evidence) -> (r: Finding)
    ensures
        r@ == report(Severity::Error, kind, Seq::empty(), utf8(key@), Some(evidence@)),
{
    let r = Finding { severity: Severity::Error, kind, file: String::new(), key: crate::text::owned(key), evidence: Some(evidence) };
    assert(r.file@ =~= Seq::<char>::empty());
    r
}

/// The keys that convention findings name, gathered once so that each
/// source entry asks without a scan.
fn flagged_keys(conventions: &Vec<Finding>) -> (r: StringHashMap<()>)
    ensures
        forall|k: Seq<char>| #[trigger] r@.contains_key(k) == flagged(reports(conventions@), k),
{
    let ghost c = reports(conventions@);
    let mut keys: StringHashMap<()> = StringHashMap::new();
    let mut i: usize = 0;
    while i < conventions.len()
        invariant
            0 <= i <= conventions@.len(),
            c == reports(conventions@),
            forall|k: Seq<char>|
                #[trigger] keys@.contains_key(k) == exists|j: int| 0 <= j < i && #[trigger] c[j].key == utf8(k),
        decreases conventions@.len() - i,
    {
        let ghost before = keys@;
        keys.insert(conventions[i].key.clone(), ());
        proof {
            assert(c[i as int].key == utf8(conventions@[i as int].key@));
            assert forall|k: Seq<char>|
                #[trigger] keys@.contains_key(k) == exists|j: int| 0 <= j < i + 1 && #[trigger] c[j].key == utf8(k) by {
                lemma_utf8_injective(k, conventions@[i as int].key@);
                if k == conventions@[i as int].key@ {
                    assert(c[i as int].key == utf8(k));
                }
                if !before.contains_key(k) && k != conventions@[i as int].key@ {
                    assert forall|j: int| 0 <= j < i + 1 implies #[trigger] c[j].key != utf8(k) by {
                        if j < i {
                            assert(!(0 <= j < i && c[j].key == utf8(k)));
                        }
                    }
                }
            }
        }
        i += 1;
    }
    keys
}

/// Placeholders and untranslated text, source entry by source entry.
fn compare(
    reference: &Catalogue,
    target: &Catalogue,
    library: &Library,
    keys_are_source: bool,
    conventions: &Vec<Finding>,
    findings: &mut Vec<Finding>,
)
    ensures
        reports(final(findings)@) == reports(old(findings)@) + compare_upto(
            reference@,
            target@,
            spec_grammar(library.id),
            keys_are_source,
            reports(conventions@),
            reference@.entries.len() as int,
        ),
{
    let ghost rc = reference@;
    let ghost tc = target@;
    let ghost g = spec_grammar(library.id);
    let ghost conv = reports(conventions@);
    let ghost start = reports(findings@);
    let index = last_index(&target.entries);
    let mismatched = flagged_keys(conventions);
    let mut i: usize = 0;
    while i < reference.entries.len()
        invariant
            0 <= i <= reference.entries@.len(),
            rc == reference@,
            tc == target@,
            indexes_last(index@, models(target.entries@)),
            forall|k: Seq<char>| #[trigger] mismatched@.contains_key(k) == flagged(conv, k),
            g == spec_grammar(library.id),
            conv == reports(conventions@),
            reports(findings@) == start + compare_upto(rc, tc, g, keys_are_source, conv, i as int),
        decreases reference.entries@.len() - i,
    {
        let entry = &reference.entries[i];
        let ghost before = findings@;
        proof {
            assert(rc.entries[i as int] == entry@);
            lemma_last_at(tc.entries, entry.key@, tc.entries.len() as int);
        }
        let ghost expected = compare_of(entry@, tc, g, keys_are_source, conv);
        if let Some(source_text) = source_text(entry, keys_are_source) {
            if let Some(j) = find_last(&index, &target.entries, entry.key.as_str()) {
                let target_entry = &target.entries[j];
                proof {
                    assert(tc.entries[j as int] == target_entry@);
                }
                if let Some(target_text) = &target_entry.text {
                    let target_text = target_text.as_str();
                    // An empty translation is already the finding.
                    if !is_blank(target_text) {
                        let mut reported = false;
                        if !mismatched.contains_key(entry.key.as_str()) {
                            if let Some(found) = placeholder_finding(entry.key.as_str(), source_text, target_text, library) {
                                let mut found = found;
                                found.file = target.path.clone();
                                findings.push(found);
                                reported = true;
                                assert(reports(findings@) =~= reports(before) + expected);
                            }
                        }
                        if !reported {
                            if !source_text.is_empty() && crate::text::same(source_text, target_text) {
                                findings.push(
                                    Finding {
                                        severity: Severity::Info,
                                        kind: Kind::Untranslated,
                                        file: target.path.clone(),
                                        key: entry.key.clone(),
                                        evidence: None,
                                    },
                                );
                                assert(reports(findings@) =~= reports(before) + expected);
                            } else {
                                assert(reports(findings@) =~= reports(before) + expected);
                            }
                        }
                    } else {
                        assert(reports(findings@) =~= reports(before) + expected);
                    }
                } else {
                    assert(reports(findings@) =~= reports(before) + expected);
                }
            } else {
                assert(reports(findings@) =~= reports(before) + expected);
            }
        } else {
            assert(reports(findings@) =~= reports(before) + expected);
        }
        i += 1;
    }
}

/// The same findings, one for one.
fn copy_findings(conventions: &Vec<Finding>) -> (r: Vec<Finding>)
    ensures
        reports(r@) == reports(conventions@),
{
    let mut copy: Vec<Finding> = Vec::new();
    let mut k: usize = 0;
    while k < conventions.len()
        invariant
            0 <= k <= conventions@.len(),
            copy@.len() == k,
            reports(copy@) == reports(conventions@).subrange(0, k as int),
        decreases conventions@.len() - k,
    {
        let f = &conventions[k];
        let ghost before = copy@;
        let evidence = match &f.evidence {
            Some(Evidence::Foreign { construct, offset }) => Some(Evidence::Foreign { construct: *construct, offset: *offset }),
            Some(Evidence::Occurrences { occurrences }) => Some(Evidence::Occurrences { occurrences: *occurrences }),
            Some(Evidence::Counts { source, target }) => Some(Evidence::Counts { source: *source, target: *target }),
            Some(Evidence::Styles { source, target }) => Some(Evidence::Styles { source: *source, target: *target }),
            Some(Evidence::Shapes { source, target }) => Some(Evidence::Shapes { source: *source, target: *target }),
            Some(Evidence::Tokens { source, target }) => Some(Evidence::Tokens { source: copy_texts(source), target: copy_texts(target) }),
            None => None,
        };
        copy.push(Finding { severity: f.severity, kind: f.kind, file: f.file.clone(), key: f.key.clone(), evidence });
        proof {
            assert(reports(copy@)[k as int] == reports(conventions@)[k as int]);
            assert(reports(copy@) =~= reports(conventions@).subrange(0, k + 1));
        }
        k += 1;
    }
    proof {
        assert(reports(conventions@).subrange(0, conventions@.len() as int) =~= reports(conventions@));
    }
    copy
}

/// Everything `target` says against `reference`, after what `findings`
/// already holds.
#[verifier::spinoff_prover]
#[verifier::rlimit(40)]
pub fn against(reference: &Catalogue, target: &Catalogue, options: Options, findings: &mut Vec<Finding>)
    ensures
        reports(final(findings)@) == reports(old(findings)@) + spec_against(
            reference@,
            target@,
            options.library,
            options.keys_are_source,
        ),
{
    let library = options.library.library();
    let ghost start = reports(findings@);
    extend(findings, duplicate_findings(target));
    // A key whose text is already the finding is not compared further: a
    // `convention-mismatch` is the root cause, and a count difference on
    // top of it is the same defect reported twice.
    let conventions = convention_findings(target, options);
    let copy = copy_findings(&conventions);
    extend(findings, copy);
    // Structure first, and everything below a divergence is suppressed.
    // When `a` is an object here and a string there, every leaf under `a`
    // is also "missing"; reporting forty of those instead of the one
    // thing that is actually wrong buries the answer.
    let diverged = structure_findings(reference, target, findings);
    let fold = library.plurals() == Plurals::KeySuffix;
    let source_bases = bases_of(reference, fold);
    let target_bases = bases_of(target, fold);
    extend(findings, absent(reference, &target_bases, &diverged, fold, target.path.as_str(), Kind::MissingKey));
    extend(findings, absent(target, &source_bases, &diverged, fold, target.path.as_str(), Kind::ExtraKey));
    compare(reference, target, &library, options.keys_are_source, &conventions, findings);
    extend(findings, empty_findings(target));
    proof {
        let g = spec_grammar(options.library);
        let conv = spec_convention(target@, g, options.keys_are_source);
        assert(reports(findings@) =~= start + spec_against(reference@, target@, options.library, options.keys_are_source));
    }
}

/// Audit every catalogue in `files` against `files[source]`.
pub fn audit(files: &[Catalogue], source: usize, options: Options) -> (r: Vec<Finding>)
    requires
        source < files@.len(),
    ensures
        reports(r@) == spec_audit(
            files@.map_values(|c: Catalogue| c@),
            source as int,
            options.library,
            options.keys_are_source,
        ),
{
    let ghost all = files@.map_values(|c: Catalogue| c@);
    let reference = &files[source];
    let mut findings = convention_findings(reference, options);
    let ghost start = reports(findings@);
    let mut index: usize = 0;
    while index < files.len()
        invariant
            0 <= index <= files@.len(),
            source < files@.len(),
            all == files@.map_values(|c: Catalogue| c@),
            *reference == files@[source as int],
            start == spec_convention(all[source as int], spec_grammar(options.library), options.keys_are_source),
            reports(findings@) == start + audit_upto(all, source as int, options.library, options.keys_are_source, index as int),
        decreases files@.len() - index,
    {
        let file = &files[index];
        let ghost before = reports(findings@);
        proof {
            assert(all[index as int] == file@);
            assert(all[source as int] == reference@);
        }
        if index == source {
            extend(&mut findings, duplicate_findings(file));
            extend(&mut findings, empty_findings(file));
        } else {
            against(reference, file, options, &mut findings);
        }
        assert(reports(findings@) =~= start + audit_upto(all, source as int, options.library, options.keys_are_source, index + 1));
        index += 1;
    }
    findings
}

} // verus!

verus! {

// ---------------------------------------------------------------------
// Laws
// ---------------------------------------------------------------------

/// The severity each kind of finding carries: an empty value warns, an
/// untranslated string informs, and everything else is an error.
pub open spec fn severity_for(kind: Kind) -> Severity {
    match kind {
        Kind::EmptyValue => Severity::Warning,
        Kind::Untranslated => Severity::Info,
        _ => Severity::Error,
    }
}

/// Every finding carries its kind's severity and names `file`.
pub open spec fn graded(s: Seq<Reported>, file: Seq<char>) -> bool {
    forall|i: int| 0 <= i < s.len() ==> (#[trigger] s[i]).severity == severity_for(s[i].kind) && s[i].file == file
}

proof fn lemma_graded_concat(a: Seq<Reported>, b: Seq<Reported>, file: Seq<char>)
    requires
        graded(a, file),
        graded(b, file),
    ensures
        graded(a + b, file),
{
    assert forall|i: int| 0 <= i < (a + b).len() implies (#[trigger] (a + b)[i]).severity == severity_for((a + b)[i].kind) && (a + b)[i].file == file by {
        if i < a.len() {
            assert((a + b)[i] == a[i]);
        } else {
            assert((a + b)[i] == b[i - a.len()]);
        }
    }
}

proof fn lemma_graded_pieces(r: Contents, t: Contents, id: Id, keys_are_source: bool, n: int)
    requires
        0 <= n <= r.entries.len(),
    ensures
        graded(convention_upto(t, spec_grammar(id), keys_are_source, if n <= t.entries.len() { n } else { t.entries.len() as int }), t.path),
        graded(structure_upto(r, t, n), t.path),
        graded(compare_upto(r, t, spec_grammar(id), keys_are_source, spec_convention(t, spec_grammar(id), keys_are_source), n), t.path),
        graded(empty_upto(t, if n <= t.entries.len() { n } else { t.entries.len() as int }), t.path),
    decreases n,
{
    if n > 0 {
        lemma_graded_pieces(r, t, id, keys_are_source, n - 1);
        lemma_graded_concat(structure_upto(r, t, n - 1), structure_of(r.entries[n - 1], t), t.path);
        let g = spec_grammar(id);
        let conv = spec_convention(t, g, keys_are_source);
        lemma_graded_concat(compare_upto(r, t, g, keys_are_source, conv, n - 1), compare_of(r.entries[n - 1], t, g, keys_are_source, conv), t.path);
        if n <= t.entries.len() {
            let e = t.entries[n - 1];
            let more = convention_of(t.path, e, g, keys_are_source);
            assert(graded(more, t.path));
            lemma_graded_concat(convention_upto(t, g, keys_are_source, n - 1), more, t.path);
            lemma_graded_concat(empty_upto(t, n - 1), empty_of(t.path, e), t.path);
        }
    }
}

proof fn lemma_graded_own(t: Contents, g: Grammar, keys_are_source: bool, n: int)
    requires
        0 <= n <= t.entries.len(),
    ensures
        graded(convention_upto(t, g, keys_are_source, n), t.path),
        graded(empty_upto(t, n), t.path),
    decreases n,
{
    if n > 0 {
        lemma_graded_own(t, g, keys_are_source, n - 1);
        let e = t.entries[n - 1];
        let more = convention_of(t.path, e, g, keys_are_source);
        assert(graded(more, t.path));
        lemma_graded_concat(convention_upto(t, g, keys_are_source, n - 1), more, t.path);
        lemma_graded_concat(empty_upto(t, n - 1), empty_of(t.path, e), t.path);
    }
}

proof fn lemma_graded_absent(
    es: Seq<EntryModel>,
    present: Seq<Seq<u8>>,
    diverged: Seq<Seq<char>>,
    fold: bool,
    path: Seq<char>,
    kind: Kind,
    n: int,
)
    requires
        0 <= n <= es.len(),
        kind == Kind::MissingKey || kind == Kind::ExtraKey,
    ensures
        graded(absent_upto(es, present, diverged, fold, path, kind, n), path),
    decreases n,
{
    if n > 0 {
        lemma_graded_absent(es, present, diverged, fold, path, kind, n - 1);
        lemma_graded_concat(
            absent_upto(es, present, diverged, fold, path, kind, n - 1),
            absent_of(es, n - 1, present, diverged, fold, path, kind),
            path,
        );
    }
}

/// **Everything a target says against the source is filed against the
/// target, at the severity its kind carries**: an empty value is a
/// warning, an untranslated string is information that does not fail a
/// run on its own, and every other finding is an error.
pub proof fn law_against_is_graded_and_filed(r: Contents, t: Contents, id: Id, keys_are_source: bool)
    ensures
        graded(spec_against(r, t, id, keys_are_source), t.path),
{
    let g = spec_grammar(id);
    let fold = spec_plurals(id) == Plurals::KeySuffix;
    let conv = spec_convention(t, g, keys_are_source);
    let diverged = diverged_upto(r, t, r.entries.len() as int);
    lemma_graded_pieces(r, t, id, keys_are_source, r.entries.len() as int);
    lemma_graded_own(t, g, keys_are_source, t.entries.len() as int);
    lemma_graded_absent(r.entries, bases(t, fold), diverged, fold, t.path, Kind::MissingKey, r.entries.len() as int);
    lemma_graded_absent(t.entries, bases(r, fold), diverged, fold, t.path, Kind::ExtraKey, t.entries.len() as int);
    let dups = spec_duplicate_findings(t);
    assert(graded(dups, t.path));
    let a = dups + conv;
    lemma_graded_concat(dups, conv, t.path);
    let b = a + structure_upto(r, t, r.entries.len() as int);
    lemma_graded_concat(a, structure_upto(r, t, r.entries.len() as int), t.path);
    let m = absent_upto(r.entries, bases(t, fold), diverged, fold, t.path, Kind::MissingKey, r.entries.len() as int);
    let c = b + m;
    lemma_graded_concat(b, m, t.path);
    let x = absent_upto(t.entries, bases(r, fold), diverged, fold, t.path, Kind::ExtraKey, t.entries.len() as int);
    let d = c + x;
    lemma_graded_concat(c, x, t.path);
    let compared = compare_upto(r, t, g, keys_are_source, conv, r.entries.len() as int);
    let e = d + compared;
    lemma_graded_concat(d, compared, t.path);
    lemma_graded_concat(e, spec_empty_findings(t), t.path);
}

/// Every finding at any severity but `Info` fails a default run, so this
/// is what makes "untranslated does not fail a run until asked" hold of
/// every audit: the source's own findings are graded the same way.
pub proof fn law_source_findings_are_graded(c: Contents, id: Id, keys_are_source: bool)
    ensures
        graded(spec_convention(c, spec_grammar(id), keys_are_source), c.path),
        graded(spec_duplicate_findings(c) + spec_empty_findings(c), c.path),
{
    lemma_graded_own(c, spec_grammar(id), keys_are_source, c.entries.len() as int);
    assert(graded(spec_duplicate_findings(c), c.path));
    lemma_graded_concat(spec_duplicate_findings(c), spec_empty_findings(c), c.path);
}

proof fn lemma_nothing_absent(
    es: Seq<EntryModel>,
    present: Seq<Seq<u8>>,
    diverged: Seq<Seq<char>>,
    fold: bool,
    path: Seq<char>,
    kind: Kind,
    n: int,
)
    requires
        0 <= n <= es.len(),
        forall|i: int| 0 <= i < es.len() ==> present.contains(#[trigger] base_of(es[i].key, fold)),
    ensures
        absent_upto(es, present, diverged, fold, path, kind, n) == Seq::<Reported>::empty(),
    decreases n,
{
    if n > 0 {
        lemma_nothing_absent(es, present, diverged, fold, path, kind, n - 1);
        assert(present.contains(base_of(es[n - 1].key, fold)));
        assert(absent_upto(es, present, diverged, fold, path, kind, n) =~= Seq::<Reported>::empty());
    }
}

/// **A catalogue compared with itself misses nothing and has nothing
/// extra**: every key it defines, and every plural base of one, is a key
/// it defines.
pub proof fn law_a_file_lacks_nothing_of_itself(c: Contents, id: Id, keys_are_source: bool)
    ensures
        forall|i: int|
            0 <= i < spec_against(c, c, id, keys_are_source).len() ==> (#[trigger] spec_against(c, c, id, keys_are_source)[i]).kind
                != Kind::MissingKey && spec_against(c, c, id, keys_are_source)[i].kind != Kind::ExtraKey,
{
    let g = spec_grammar(id);
    let fold = spec_plurals(id) == Plurals::KeySuffix;
    let conv = spec_convention(c, g, keys_are_source);
    let diverged = diverged_upto(c, c, c.entries.len() as int);
    let n = c.entries.len() as int;
    assert forall|i: int| 0 <= i < c.entries.len() implies bases(c, fold).contains(#[trigger] base_of(c.entries[i].key, fold)) by {
        assert(bases(c, fold)[i] == base_of(c.entries[i].key, fold));
    }
    lemma_nothing_absent(c.entries, bases(c, fold), diverged, fold, c.path, Kind::MissingKey, n);
    lemma_nothing_absent(c.entries, bases(c, fold), diverged, fold, c.path, Kind::ExtraKey, n);
    let all = spec_against(c, c, id, keys_are_source);
    let front = spec_duplicate_findings(c) + conv + structure_upto(c, c, n);
    let back = compare_upto(c, c, g, keys_are_source, conv, n) + spec_empty_findings(c);
    assert(all =~= front + back);
    lemma_graded_pieces(c, c, id, keys_are_source, n);
    lemma_graded_own(c, g, keys_are_source, n);
    assert forall|i: int| 0 <= i < all.len() implies (#[trigger] all[i]).kind != Kind::MissingKey && all[i].kind != Kind::ExtraKey by {
        if i < front.len() {
            let a = spec_duplicate_findings(c) + conv;
            if i < a.len() {
                if i < spec_duplicate_findings(c).len() {
                    assert(all[i] == spec_duplicate_findings(c)[i]);
                } else {
                    assert(all[i] == conv[i - spec_duplicate_findings(c).len()]);
                    assert(conv[i - spec_duplicate_findings(c).len()].kind == Kind::ConventionMismatch) by {
                        lemma_convention_kinds(c, g, keys_are_source, n);
                    }
                }
            } else {
                assert(all[i] == structure_upto(c, c, n)[i - a.len()]);
                lemma_structure_kinds(c, c, n);
            }
        } else {
            let j = i - front.len();
            assert(all[i] == back[j]);
            if j < compare_upto(c, c, g, keys_are_source, conv, n).len() {
                assert(back[j] == compare_upto(c, c, g, keys_are_source, conv, n)[j]);
                lemma_compare_kinds(c, c, g, keys_are_source, conv, n);
            } else {
                assert(back[j] == spec_empty_findings(c)[j - compare_upto(c, c, g, keys_are_source, conv, n).len()]);
                lemma_empty_kinds(c, n);
            }
        }
    }
}

proof fn lemma_structure_reported(r: Contents, t: Contents, n: int, k: int)
    requires
        0 <= k < n <= r.entries.len(),
        lookup(t.entries, r.entries[k].key) matches Some(o) && o.shape != r.entries[k].shape,
    ensures
        structure_upto(r, t, n).contains(
            report(
                Severity::Error,
                Kind::StructureMismatch,
                t.path,
                utf8(r.entries[k].key),
                Some(Proof::Shapes(r.entries[k].shape, lookup(t.entries, r.entries[k].key)->0.shape)),
            ),
        ),
        diverged_upto(r, t, n).contains(r.entries[k].key),
    decreases n,
{
    let a = structure_upto(r, t, n - 1);
    let b = structure_of(r.entries[n - 1], t);
    assert(structure_upto(r, t, n) == a + b);
    if k < n - 1 {
        lemma_structure_reported(r, t, n - 1, k);
        let j = choose|j: int| 0 <= j < a.len() && a[j] == report(
            Severity::Error,
            Kind::StructureMismatch,
            t.path,
            utf8(r.entries[k].key),
            Some(Proof::Shapes(r.entries[k].shape, lookup(t.entries, r.entries[k].key)->0.shape)),
        );
        assert((a + b)[j] == a[j]);
        let d = diverged_upto(r, t, n - 1);
        let i = choose|i: int| 0 <= i < d.len() && d[i] == r.entries[k].key;
        if diverges(r.entries[n - 1], t.entries) {
            assert(d.push(r.entries[n - 1].key)[i] == d[i]);
        }
    } else {
        assert((a + b)[a.len() as int] == b[0]);
        if diverges(r.entries[n - 1], t.entries) {
            let d = diverged_upto(r, t, n - 1);
            assert(d.push(r.entries[n - 1].key)[d.len() as int] == r.entries[k].key);
        }
    }
}

/// A key below a path is below it still once its plural suffix is put back.
proof fn lemma_under_base(key: Seq<char>, fold: bool, p: Seq<u8>)
    requires
        under(base_of(key, fold), p),
    ensures
        under(utf8(key), p),
{
    if fold {
        let k = utf8(key);
        crate::message::lemma_strip_first_prefix(k, crate::message::plural_suffixes(), 0);
        let b = spec_plural_base(k);
        assert(b == k.subrange(0, b.len() as int));
        assert(k.subrange(0, p.len() as int) =~= b.subrange(0, p.len() as int));
        assert(k[p.len() as int] == b[p.len() as int]);
    }
}

/// The missing and extra findings of a comparison are each about a key
/// that is not below a path whose structure diverged.
proof fn lemma_absent_not_below(r: Contents, t: Contents, id: Id, keys_are_source: bool)
    ensures
        ({
            let all = spec_against(r, t, id, keys_are_source);
            let diverged = diverged_upto(r, t, r.entries.len() as int);
            let fold = spec_plurals(id) == Plurals::KeySuffix;
            forall|j: int|
                0 <= j < all.len() && ((#[trigger] all[j]).kind == Kind::MissingKey || all[j].kind == Kind::ExtraKey) ==> exists|
                    key: Seq<char>,
                | !below(utf8(key), diverged) && all[j].key == #[trigger] base_of(key, fold)
        }),
{
    let g = spec_grammar(id);
    let fold = spec_plurals(id) == Plurals::KeySuffix;
    let conv = spec_convention(t, g, keys_are_source);
    let diverged = diverged_upto(r, t, r.entries.len() as int);
    let n = r.entries.len() as int;
    let all = spec_against(r, t, id, keys_are_source);
    let dups = spec_duplicate_findings(t);
    let st = structure_upto(r, t, n);
    let m = absent_upto(r.entries, bases(t, fold), diverged, fold, t.path, Kind::MissingKey, n);
    let x = absent_upto(t.entries, bases(r, fold), diverged, fold, t.path, Kind::ExtraKey, t.entries.len() as int);
    let compared = compare_upto(r, t, g, keys_are_source, conv, n);
    let emp = spec_empty_findings(t);
    assert(all =~= (dups + conv + st) + (m + x) + (compared + emp));
    lemma_absent_missing(r.entries, bases(t, fold), diverged, fold, t.path, Kind::MissingKey, n);
    lemma_absent_missing(t.entries, bases(r, fold), diverged, fold, t.path, Kind::ExtraKey, t.entries.len() as int);
    lemma_convention_kinds(t, g, keys_are_source, t.entries.len() as int);
    lemma_structure_kinds(r, t, n);
    lemma_compare_kinds(r, t, g, keys_are_source, conv, n);
    lemma_empty_kinds(t, t.entries.len() as int);
    lemma_graded_own(t, g, keys_are_source, t.entries.len() as int);
    assert(graded(dups, t.path));
    let front = dups + conv + st;
    let mid = m + x;
    assert forall|j: int|
        0 <= j < all.len() && ((#[trigger] all[j]).kind == Kind::MissingKey || all[j].kind == Kind::ExtraKey) implies exists|
        key: Seq<char>,
    | !below(utf8(key), diverged) && all[j].key == #[trigger] base_of(key, fold) by {
        if j < front.len() {
            if j < dups.len() {
                assert(all[j] == dups[j]);
            } else if j < dups.len() + conv.len() {
                assert(all[j] == conv[j - dups.len()]);
            } else {
                assert(all[j] == st[j - dups.len() - conv.len()]);
            }
        } else if j < front.len() + mid.len() {
            let q = j - front.len();
            if q < m.len() {
                assert(all[j] == m[q]);
                let i = choose|i: int|
                    0 <= i < n && counted(r.entries[i], diverged) && !bases(t, fold).contains(base_of(r.entries[i].key, fold))
                        && (#[trigger] m[q]).key == base_of(r.entries[i].key, fold);
                assert(!below(utf8(r.entries[i].key), diverged) && all[j].key == base_of(r.entries[i].key, fold));
            } else {
                assert(all[j] == x[q - m.len()]);
                let i = choose|i: int|
                    0 <= i < t.entries.len() && counted(t.entries[i], diverged) && !bases(r, fold).contains(
                        base_of(t.entries[i].key, fold),
                    ) && (#[trigger] x[q - m.len()]).key == base_of(t.entries[i].key, fold);
                assert(!below(utf8(t.entries[i].key), diverged) && all[j].key == base_of(t.entries[i].key, fold));
            }
        } else {
            let q = j - front.len() - mid.len();
            if q < compared.len() {
                assert(all[j] == compared[q]);
            } else {
                assert(all[j] == emp[q - compared.len()]);
            }
        }
    }
}

/// Source entry `k`'s key is held by the target (its last entry there)
/// with another shape.
pub open spec fn changed_shape(r: Contents, t: Contents, k: int) -> bool {
    0 <= k < r.entries.len() && (lookup(t.entries, r.entries[k].key) matches Some(o) && o.shape != r.entries[k].shape)
}

/// The structure mismatch at source entry `k`'s key, with both shapes.
pub open spec fn shape_report(r: Contents, t: Contents, k: int) -> Reported {
    report(
        Severity::Error,
        Kind::StructureMismatch,
        t.path,
        utf8(r.entries[k].key),
        Some(Proof::Shapes(r.entries[k].shape, lookup(t.entries, r.entries[k].key)->0.shape)),
    )
}

/// `f` is the structure mismatch of some source entry whose shape changed.
pub open spec fn of_a_changed_shape(r: Contents, t: Contents, f: Reported) -> bool {
    exists|k: int| #[trigger] changed_shape(r, t, k) && f == shape_report(r, t, k)
}

proof fn lemma_structure_sound(r: Contents, t: Contents, n: int)
    requires
        0 <= n <= r.entries.len(),
    ensures
        forall|j: int| 0 <= j < structure_upto(r, t, n).len() ==> of_a_changed_shape(r, t, #[trigger] structure_upto(r, t, n)[j]),
    decreases n,
{
    if n > 0 {
        lemma_structure_sound(r, t, n - 1);
        let a = structure_upto(r, t, n - 1);
        let b = structure_of(r.entries[n - 1], t);
        assert(structure_upto(r, t, n) == a + b);
        assert forall|j: int| 0 <= j < (a + b).len() implies of_a_changed_shape(r, t, #[trigger] (a + b)[j]) by {
            if j < a.len() {
                assert((a + b)[j] == a[j]);
            } else {
                assert((a + b)[j] == b[0]);
                assert(changed_shape(r, t, n - 1));
                assert(b[0] == shape_report(r, t, n - 1));
            }
        }
    }
}

/// **A structure mismatch is only ever a changed shape**: each structure
/// mismatch a comparison reports is at the key of a source entry that the
/// target holds with another shape, and carries both shapes.
pub proof fn law_a_structure_mismatch_is_a_changed_shape(r: Contents, t: Contents, id: Id, keys_are_source: bool)
    ensures
        forall|j: int|
            0 <= j < spec_against(r, t, id, keys_are_source).len() && (#[trigger] spec_against(r, t, id, keys_are_source)[j]).kind
                == Kind::StructureMismatch ==> of_a_changed_shape(r, t, spec_against(r, t, id, keys_are_source)[j]),
{
    let g = spec_grammar(id);
    let fold = spec_plurals(id) == Plurals::KeySuffix;
    let conv = spec_convention(t, g, keys_are_source);
    let n = r.entries.len() as int;
    let diverged = diverged_upto(r, t, n);
    let all = spec_against(r, t, id, keys_are_source);
    let dups = spec_duplicate_findings(t);
    let st = structure_upto(r, t, n);
    let m = absent_upto(r.entries, bases(t, fold), diverged, fold, t.path, Kind::MissingKey, n);
    let x = absent_upto(t.entries, bases(r, fold), diverged, fold, t.path, Kind::ExtraKey, t.entries.len() as int);
    let compared = compare_upto(r, t, g, keys_are_source, conv, n);
    let emp = spec_empty_findings(t);
    assert(all =~= (dups + conv + st) + (m + x) + (compared + emp));
    lemma_absent_first(r.entries, bases(t, fold), diverged, fold, t.path, Kind::MissingKey, n);
    lemma_absent_first(t.entries, bases(r, fold), diverged, fold, t.path, Kind::ExtraKey, t.entries.len() as int);
    lemma_convention_kinds(t, g, keys_are_source, t.entries.len() as int);
    lemma_structure_sound(r, t, n);
    lemma_compare_kinds(r, t, g, keys_are_source, conv, n);
    lemma_empty_kinds(t, t.entries.len() as int);
    let front = dups + conv + st;
    let mid = m + x;
    assert forall|j: int| 0 <= j < all.len() && (#[trigger] all[j]).kind == Kind::StructureMismatch implies of_a_changed_shape(
        r,
        t,
        all[j],
    ) by {
        if j < front.len() {
            if j < dups.len() {
                assert(all[j] == dups[j]);
            } else if j < dups.len() + conv.len() {
                assert(all[j] == conv[j - dups.len()]);
            } else {
                assert(all[j] == st[j - dups.len() - conv.len()]);
            }
        } else if j < front.len() + mid.len() {
            let q = j - front.len();
            if q < m.len() {
                assert(all[j] == m[q]);
            } else {
                assert(all[j] == x[q - m.len()]);
            }
        } else {
            let q = j - front.len() - mid.len();
            if q < compared.len() {
                assert(all[j] == compared[q]);
            } else {
                assert(all[j] == emp[q - compared.len()]);
            }
        }
    }
}

/// **A path that is a string in one locale and an object in the other is
/// a structure mismatch**, in either direction: wherever the target's
/// entry at a source key (the last, where there are several) has another
/// shape than the source's, the comparison reports a structure mismatch
/// at that key with both shapes, and no key below that path is reported
/// missing or extra.
pub proof fn law_a_changed_shape_is_a_structure_mismatch(r: Contents, t: Contents, id: Id, keys_are_source: bool, k: int)
    requires
        changed_shape(r, t, k),
    ensures
        spec_against(r, t, id, keys_are_source).contains(shape_report(r, t, k)),
        forall|j: int|
            0 <= j < spec_against(r, t, id, keys_are_source).len() && ((#[trigger] spec_against(r, t, id, keys_are_source)[j]).kind
                == Kind::MissingKey || spec_against(r, t, id, keys_are_source)[j].kind == Kind::ExtraKey) ==> !under(
                spec_against(r, t, id, keys_are_source)[j].key,
                utf8(r.entries[k].key),
            ),
{
    let g = spec_grammar(id);
    let fold = spec_plurals(id) == Plurals::KeySuffix;
    let conv = spec_convention(t, g, keys_are_source);
    let n = r.entries.len() as int;
    let diverged = diverged_upto(r, t, n);
    let all = spec_against(r, t, id, keys_are_source);
    lemma_structure_reported(r, t, n, k);
    let expected = report(
        Severity::Error,
        Kind::StructureMismatch,
        t.path,
        utf8(r.entries[k].key),
        Some(Proof::Shapes(r.entries[k].shape, lookup(t.entries, r.entries[k].key)->0.shape)),
    );
    let st = structure_upto(r, t, n);
    let front = spec_duplicate_findings(t) + conv;
    let rest = absent_upto(r.entries, bases(t, fold), diverged, fold, t.path, Kind::MissingKey, n) + absent_upto(
        t.entries,
        bases(r, fold),
        diverged,
        fold,
        t.path,
        Kind::ExtraKey,
        t.entries.len() as int,
    ) + compare_upto(r, t, g, keys_are_source, conv, n) + spec_empty_findings(t);
    assert(all =~= front + st + rest);
    let j = choose|j: int| 0 <= j < st.len() && st[j] == expected;
    assert(all[front.len() + j] == expected);
    let p = r.entries[k].key;
    let di = choose|i: int| 0 <= i < diverged.len() && diverged[i] == p;
    lemma_absent_not_below(r, t, id, keys_are_source);
    assert forall|j: int|
        0 <= j < all.len() && ((#[trigger] all[j]).kind == Kind::MissingKey || all[j].kind == Kind::ExtraKey) implies !under(
        all[j].key,
        utf8(p),
    ) by {
        let key = choose|key: Seq<char>| !below(utf8(key), diverged) && all[j].key == #[trigger] base_of(key, fold);
        if under(all[j].key, utf8(p)) {
            lemma_under_base(key, fold, utf8(p));
            assert(under(utf8(key), utf8(diverged[di])));
        }
    }
}

proof fn lemma_convention_kinds(t: Contents, g: Grammar, keys_are_source: bool, n: int)
    requires
        0 <= n <= t.entries.len(),
    ensures
        forall|i: int| 0 <= i < convention_upto(t, g, keys_are_source, n).len() ==> (#[trigger] convention_upto(t, g, keys_are_source, n)[i]).kind == Kind::ConventionMismatch,
    decreases n,
{
    if n > 0 {
        lemma_convention_kinds(t, g, keys_are_source, n - 1);
        let a = convention_upto(t, g, keys_are_source, n - 1);
        let b = convention_of(t.path, t.entries[n - 1], g, keys_are_source);
        assert forall|i: int| 0 <= i < (a + b).len() implies (#[trigger] (a + b)[i]).kind == Kind::ConventionMismatch by {
            if i >= a.len() {
                assert((a + b)[i] == b[i - a.len()]);
            } else {
                assert((a + b)[i] == a[i]);
            }
        }
    }
}

proof fn lemma_structure_kinds(r: Contents, t: Contents, n: int)
    requires
        0 <= n <= r.entries.len(),
    ensures
        forall|i: int| 0 <= i < structure_upto(r, t, n).len() ==> (#[trigger] structure_upto(r, t, n)[i]).kind == Kind::StructureMismatch,
    decreases n,
{
    if n > 0 {
        lemma_structure_kinds(r, t, n - 1);
        let a = structure_upto(r, t, n - 1);
        let b = structure_of(r.entries[n - 1], t);
        assert forall|i: int| 0 <= i < (a + b).len() implies (#[trigger] (a + b)[i]).kind == Kind::StructureMismatch by {
            if i >= a.len() {
                assert((a + b)[i] == b[i - a.len()]);
            } else {
                assert((a + b)[i] == a[i]);
            }
        }
    }
}

proof fn lemma_compare_kinds(r: Contents, t: Contents, g: Grammar, keys_are_source: bool, conv: Seq<Reported>, n: int)
    requires
        0 <= n <= r.entries.len(),
    ensures
        forall|i: int| 0 <= i < compare_upto(r, t, g, keys_are_source, conv, n).len() ==> (#[trigger] compare_upto(r, t, g, keys_are_source, conv, n)[i]).kind != Kind::MissingKey
            && compare_upto(r, t, g, keys_are_source, conv, n)[i].kind != Kind::ExtraKey
            && compare_upto(r, t, g, keys_are_source, conv, n)[i].kind != Kind::StructureMismatch,
    decreases n,
{
    if n > 0 {
        lemma_compare_kinds(r, t, g, keys_are_source, conv, n - 1);
        let a = compare_upto(r, t, g, keys_are_source, conv, n - 1);
        let b = compare_of(r.entries[n - 1], t, g, keys_are_source, conv);
        assert forall|i: int| 0 <= i < (a + b).len() implies (#[trigger] (a + b)[i]).kind != Kind::MissingKey && (a + b)[i].kind != Kind::ExtraKey
            && (a + b)[i].kind != Kind::StructureMismatch by {
            if i >= a.len() {
                assert((a + b)[i] == b[i - a.len()]);
            } else {
                assert((a + b)[i] == a[i]);
            }
        }
    }
}

proof fn lemma_empty_kinds(t: Contents, n: int)
    requires
        0 <= n <= t.entries.len(),
    ensures
        forall|i: int| 0 <= i < empty_upto(t, n).len() ==> (#[trigger] empty_upto(t, n)[i]).kind == Kind::EmptyValue,
    decreases n,
{
    if n > 0 {
        lemma_empty_kinds(t, n - 1);
        let a = empty_upto(t, n - 1);
        let b = empty_of(t.path, t.entries[n - 1]);
        assert forall|i: int| 0 <= i < (a + b).len() implies (#[trigger] (a + b)[i]).kind == Kind::EmptyValue by {
            if i >= a.len() {
                assert((a + b)[i] == b[i - a.len()]);
            } else {
                assert((a + b)[i] == a[i]);
            }
        }
    }
}

/// The names a placeholder finding compares are each message's distinct
/// token names, sorted, and nothing else.
pub proof fn law_names_are_the_sorted_distinct_tokens(tokens: Seq<Seq<char>>)
    ensures
        ascending(spec_names(tokens)),
        spec_names(tokens).to_set() == tokens.to_set(),
        forall|s: Seq<Seq<char>>| ascending(s) && s.to_set() == tokens.to_set() ==> s == spec_names(tokens),
{
    let witness = crate::text::lemma_sorted_arrangement(tokens);
    assert(ascending(witness) && witness.to_set() == tokens.to_set());
    assert forall|s: Seq<Seq<char>>| ascending(s) && s.to_set() == tokens.to_set() implies s == spec_names(tokens) by {
        lemma_ascending_unique(s, spec_names(tokens));
    }
}

} // verus!

verus! {

// ---------------------------------------------------------------------
// Missing and extra keys are named once each
// ---------------------------------------------------------------------

proof fn lemma_absent_distinct(
    es: Seq<EntryModel>,
    present: Seq<Seq<u8>>,
    diverged: Seq<Seq<char>>,
    fold: bool,
    path: Seq<char>,
    kind: Kind,
    n: int,
)
    requires
        0 <= n <= es.len(),
    ensures
        forall|k: int|
            0 <= k < absent_upto(es, present, diverged, fold, path, kind, n).len() ==> exists|i: int|
                0 <= i < n && counted(es[i], diverged) && (#[trigger] absent_upto(es, present, diverged, fold, path, kind, n)[k]).key
                    == base_of(es[i].key, fold),
        forall|a: int, b: int|
            0 <= a < b < absent_upto(es, present, diverged, fold, path, kind, n).len() ==> (#[trigger] absent_upto(
                es,
                present,
                diverged,
                fold,
                path,
                kind,
                n,
            )[a]).key != (#[trigger] absent_upto(es, present, diverged, fold, path, kind, n)[b]).key,
    decreases n,
{
    if n > 0 {
        lemma_absent_distinct(es, present, diverged, fold, path, kind, n - 1);
        let before = absent_upto(es, present, diverged, fold, path, kind, n - 1);
        let here = absent_of(es, n - 1, present, diverged, fold, path, kind);
        let all = absent_upto(es, present, diverged, fold, path, kind, n);
        assert(all == before + here);
        assert forall|k: int| 0 <= k < all.len() implies exists|i: int|
            0 <= i < n && counted(es[i], diverged) && (#[trigger] all[k]).key == base_of(es[i].key, fold) by {
            if k < before.len() {
                assert(all[k] == before[k]);
                let i = choose|i: int| 0 <= i < n - 1 && counted(es[i], diverged) && before[k].key == base_of(es[i].key, fold);
            } else {
                assert(all[k] == here[0]);
                assert(counted(es[n - 1], diverged));
            }
        }
        assert forall|a: int, b: int| 0 <= a < b < all.len() implies (#[trigger] all[a]).key != (#[trigger] all[b]).key by {
            if b < before.len() {
                assert(all[a] == before[a] && all[b] == before[b]);
            } else {
                assert(all[a] == before[a]);
                assert(all[b] == here[0]);
                let i = choose|i: int| 0 <= i < n - 1 && counted(es[i], diverged) && before[a].key == base_of(es[i].key, fold);
                assert(first_of_base(es, n - 1, diverged, fold));
                assert(base_of(es[i].key, fold) != base_of(es[n - 1].key, fold));
            }
        }
    }
}

/// Entry `i` is the first counted entry whose base is `b`.
pub open spec fn first_at(es: Seq<EntryModel>, d: Seq<Seq<char>>, fold: bool, i: int, b: Seq<u8>) -> bool {
    0 <= i < es.len() && counted(es[i], d) && base_of(es[i].key, fold) == b && first_of_base(es, i, d, fold)
}

/// Some entry before `n` is the first counted entry whose base is `b`.
pub open spec fn first_before(es: Seq<EntryModel>, d: Seq<Seq<char>>, fold: bool, n: int, b: Seq<u8>) -> bool {
    exists|i: int| 0 <= i < n && #[trigger] first_at(es, d, fold, i, b)
}

proof fn lemma_first_at_unique(es: Seq<EntryModel>, d: Seq<Seq<char>>, fold: bool, i: int, j: int, b: Seq<u8>)
    requires
        first_at(es, d, fold, i, b),
        first_at(es, d, fold, j, b),
    ensures
        i == j,
{
    if i < j {
        assert(base_of(es[i].key, fold) != base_of(es[j].key, fold));
    } else if j < i {
        assert(base_of(es[j].key, fold) != base_of(es[i].key, fold));
    }
}

proof fn lemma_absent_first(
    es: Seq<EntryModel>,
    present: Seq<Seq<u8>>,
    d: Seq<Seq<char>>,
    fold: bool,
    path: Seq<char>,
    kind: Kind,
    n: int,
)
    requires
        0 <= n <= es.len(),
    ensures
        ({
            let found = absent_upto(es, present, d, fold, path, kind, n);
            &&& forall|k: int| 0 <= k < found.len() ==> first_before(es, d, fold, n, (#[trigger] found[k]).key)
            &&& forall|k: int|
                0 <= k < found.len() ==> !present.contains((#[trigger] found[k]).key) && found[k].severity == Severity::Error
                    && found[k].kind == kind && found[k].file == path && found[k].evidence is None
            &&& forall|a: int, b: int, i: int, j: int|
                0 <= a < b < found.len() && #[trigger] first_at(es, d, fold, i, found[a].key) && #[trigger] first_at(
                    es,
                    d,
                    fold,
                    j,
                    found[b].key,
                ) ==> i < j
            &&& forall|i: int|
                0 <= i < n && counted(es[i], d) && !present.contains(base_of(es[i].key, fold)) ==> exists|k: int|
                    0 <= k < found.len() && (#[trigger] found[k]).key == base_of(es[i].key, fold)
        }),
    decreases n,
{
    if n > 0 {
        lemma_absent_first(es, present, d, fold, path, kind, n - 1);
        let before = absent_upto(es, present, d, fold, path, kind, n - 1);
        let here = absent_of(es, n - 1, present, d, fold, path, kind);
        let all = absent_upto(es, present, d, fold, path, kind, n);
        assert(all == before + here);
        let own = base_of(es[n - 1].key, fold);
        if here.len() > 0 {
            assert(here[0].key == own);
            assert(first_at(es, d, fold, n - 1, own));
        }
        assert forall|k: int| 0 <= k < all.len() implies first_before(es, d, fold, n, (#[trigger] all[k]).key) by {
            if k < before.len() {
                assert(all[k] == before[k]);
                assert(first_before(es, d, fold, n - 1, before[k].key));
                let i = choose|i: int| 0 <= i < n - 1 && #[trigger] first_at(es, d, fold, i, before[k].key);
                assert(first_at(es, d, fold, i, all[k].key));
            } else {
                assert(all[k] == here[0]);
                assert(first_at(es, d, fold, n - 1, all[k].key));
            }
        }
        assert forall|k: int| 0 <= k < all.len() implies !present.contains((#[trigger] all[k]).key) && all[k].severity
            == Severity::Error && all[k].kind == kind && all[k].file == path && all[k].evidence is None by {
            if k < before.len() {
                assert(all[k] == before[k]);
            } else {
                assert(all[k] == here[0]);
            }
        }
        assert forall|a: int, b: int, i: int, j: int|
            0 <= a < b < all.len() && #[trigger] first_at(es, d, fold, i, all[a].key) && #[trigger] first_at(
                es,
                d,
                fold,
                j,
                all[b].key,
            ) implies i < j by {
            assert(all[a] == before[a]);
            if b < before.len() {
                assert(all[b] == before[b]);
                assert(first_at(es, d, fold, i, before[a].key) && first_at(es, d, fold, j, before[b].key));
            } else {
                assert(all[b] == here[0]);
                lemma_first_at_unique(es, d, fold, j, n - 1, own);
                assert(first_before(es, d, fold, n - 1, before[a].key));
                let i2 = choose|i2: int| 0 <= i2 < n - 1 && #[trigger] first_at(es, d, fold, i2, before[a].key);
                lemma_first_at_unique(es, d, fold, i, i2, before[a].key);
            }
        }
        assert forall|i: int|
            0 <= i < n && counted(es[i], d) && !present.contains(base_of(es[i].key, fold)) implies exists|k: int|
            0 <= k < all.len() && (#[trigger] all[k]).key == base_of(es[i].key, fold) by {
            if i < n - 1 {
                let k = choose|k: int| 0 <= k < before.len() && (#[trigger] before[k]).key == base_of(es[i].key, fold);
                assert(all[k] == before[k]);
            } else if first_of_base(es, n - 1, d, fold) {
                assert(all[before.len() as int] == here[0]);
            } else {
                let j = choose|j: int|
                    0 <= j < n - 1 && counted(es[j], d) && #[trigger] base_of(es[j].key, fold) == base_of(es[n - 1].key, fold);
                let k = choose|k: int| 0 <= k < before.len() && (#[trigger] before[k]).key == base_of(es[j].key, fold);
                assert(all[k] == before[k]);
            }
        }
    }
}

/// What `absent` reports, in full: each base that no entry of the other
/// file has, once, in the order its first counted entry stands, as an
/// error of the kind asked for, against the file named, with no evidence;
/// and no such base is left out.
pub proof fn law_absent_keys_in_first_appearance_order(
    es: Seq<EntryModel>,
    present: Seq<Seq<u8>>,
    diverged: Seq<Seq<char>>,
    fold: bool,
    path: Seq<char>,
    kind: Kind,
)
    ensures
        ({
            let found = absent_upto(es, present, diverged, fold, path, kind, es.len() as int);
            &&& forall|k: int| 0 <= k < found.len() ==> first_before(es, diverged, fold, es.len() as int, (#[trigger] found[k]).key)
            &&& forall|k: int|
                0 <= k < found.len() ==> !present.contains((#[trigger] found[k]).key) && found[k].severity == Severity::Error
                    && found[k].kind == kind && found[k].file == path && found[k].evidence is None
            &&& forall|a: int, b: int, i: int, j: int|
                0 <= a < b < found.len() && #[trigger] first_at(es, diverged, fold, i, found[a].key) && #[trigger] first_at(
                    es,
                    diverged,
                    fold,
                    j,
                    found[b].key,
                ) ==> i < j
            &&& forall|i: int|
                0 <= i < es.len() && counted(es[i], diverged) && !present.contains(base_of(es[i].key, fold)) ==> exists|k: int|
                    0 <= k < found.len() && (#[trigger] found[k]).key == base_of(es[i].key, fold)
        }),
{
    lemma_absent_first(es, present, diverged, fold, path, kind, es.len() as int);
}

/// A missing or extra key is named once: the keys `absent` reports are
/// pairwise distinct, and each is the base of a counted entry of the file
/// it was read from.
pub proof fn law_an_absent_key_is_named_once(
    es: Seq<EntryModel>,
    present: Seq<Seq<u8>>,
    diverged: Seq<Seq<char>>,
    fold: bool,
    path: Seq<char>,
    kind: Kind,
)
    ensures
        ({
            let found = absent_upto(es, present, diverged, fold, path, kind, es.len() as int);
            &&& forall|a: int, b: int| 0 <= a < b < found.len() ==> (#[trigger] found[a]).key != (#[trigger] found[b]).key
            &&& forall|k: int|
                0 <= k < found.len() ==> exists|i: int|
                    0 <= i < es.len() && counted(es[i], diverged) && !present.contains(base_of(es[i].key, fold))
                        && (#[trigger] found[k]).key == base_of(es[i].key, fold)
        }),
{
    let n = es.len() as int;
    lemma_absent_distinct(es, present, diverged, fold, path, kind, n);
    lemma_absent_missing(es, present, diverged, fold, path, kind, n);
}

proof fn lemma_absent_missing(
    es: Seq<EntryModel>,
    present: Seq<Seq<u8>>,
    diverged: Seq<Seq<char>>,
    fold: bool,
    path: Seq<char>,
    kind: Kind,
    n: int,
)
    requires
        0 <= n <= es.len(),
    ensures
        forall|k: int|
            0 <= k < absent_upto(es, present, diverged, fold, path, kind, n).len() ==> exists|i: int|
                0 <= i < n && counted(es[i], diverged) && !present.contains(base_of(es[i].key, fold))
                    && (#[trigger] absent_upto(es, present, diverged, fold, path, kind, n)[k]).key == base_of(es[i].key, fold),
    decreases n,
{
    if n > 0 {
        lemma_absent_missing(es, present, diverged, fold, path, kind, n - 1);
        let before = absent_upto(es, present, diverged, fold, path, kind, n - 1);
        let here = absent_of(es, n - 1, present, diverged, fold, path, kind);
        let all = absent_upto(es, present, diverged, fold, path, kind, n);
        assert(all == before + here);
        assert forall|k: int| 0 <= k < all.len() implies exists|i: int|
            0 <= i < n && counted(es[i], diverged) && !present.contains(base_of(es[i].key, fold))
                && (#[trigger] all[k]).key == base_of(es[i].key, fold) by {
            if k < before.len() {
                assert(all[k] == before[k]);
                let i = choose|i: int|
                    0 <= i < n - 1 && counted(es[i], diverged) && !present.contains(base_of(es[i].key, fold))
                        && before[k].key == base_of(es[i].key, fold);
            } else {
                assert(all[k] == here[0]);
            }
        }
    }
}

// ---------------------------------------------------------------------
// A convention mismatch is the one finding its key gets
// ---------------------------------------------------------------------

pub open spec fn is_placeholder_kind(kind: Kind) -> bool {
    kind == Kind::PlaceholderCountMismatch || kind == Kind::PlaceholderNameMismatch || kind
        == Kind::PlaceholderStyleMismatch
}

proof fn lemma_compare_suppressed(r: Contents, t: Contents, g: Grammar, keys_are_source: bool, conventions: Seq<Reported>, n: int)
    requires
        0 <= n <= r.entries.len(),
    ensures
        forall|k: int|
            0 <= k < compare_upto(r, t, g, keys_are_source, conventions, n).len() && is_placeholder_kind(
                (#[trigger] compare_upto(r, t, g, keys_are_source, conventions, n)[k]).kind,
            ) ==> forall|i: int| 0 <= i < conventions.len() ==> conventions[i].key != compare_upto(
                r,
                t,
                g,
                keys_are_source,
                conventions,
                n,
            )[k].key,
        forall|k: int|
            0 <= k < compare_upto(r, t, g, keys_are_source, conventions, n).len() ==> exists|i: int|
                0 <= i < n && (#[trigger] compare_upto(r, t, g, keys_are_source, conventions, n)[k]).key == utf8(
                    r.entries[i].key,
                ) && (lookup(t.entries, r.entries[i].key) matches Some(te) && te.text matches Some(tt) && !blank(tt)),
    decreases n,
{
    if n > 0 {
        lemma_compare_suppressed(r, t, g, keys_are_source, conventions, n - 1);
        let before = compare_upto(r, t, g, keys_are_source, conventions, n - 1);
        let e = r.entries[n - 1];
        let here = compare_of(e, t, g, keys_are_source, conventions);
        let all = compare_upto(r, t, g, keys_are_source, conventions, n);
        assert(all == before + here);
        assert forall|k: int| 0 <= k < all.len() && is_placeholder_kind((#[trigger] all[k]).kind) implies forall|i: int|
            0 <= i < conventions.len() ==> conventions[i].key != all[k].key by {
            if k < before.len() {
                assert(all[k] == before[k]);
            } else {
                assert(all[k] == here[0]);
                assert(!flagged(conventions, e.key));
            }
        }
        assert forall|k: int| 0 <= k < all.len() implies exists|i: int|
            0 <= i < n && (#[trigger] all[k]).key == utf8(r.entries[i].key) && (lookup(t.entries, r.entries[i].key) matches Some(
                te,
            ) && te.text matches Some(tt) && !blank(tt)) by {
            if k < before.len() {
                assert(all[k] == before[k]);
                let i = choose|i: int|
                    0 <= i < n - 1 && before[k].key == utf8(r.entries[i].key) && (lookup(t.entries, r.entries[i].key) matches Some(
                        te,
                    ) && te.text matches Some(tt) && !blank(tt));
            } else {
                assert(all[k] == here[0]);
            }
        }
    }
}

/// A key whose text is already a convention mismatch gets no placeholder
/// finding on top of it, which would be the same defect twice; and a
/// comparison finding is only ever about a source key whose translation
/// is there and is not blank.
pub proof fn law_a_convention_mismatch_suppresses_placeholders(r: Contents, t: Contents, id: Id, keys_are_source: bool)
    ensures
        ({
            let g = spec_grammar(id);
            let conventions = spec_convention(t, g, keys_are_source);
            let compared = compare_upto(r, t, g, keys_are_source, conventions, r.entries.len() as int);
            &&& spec_against(r, t, id, keys_are_source) == spec_duplicate_findings(t) + conventions + structure_upto(
                r,
                t,
                r.entries.len() as int,
            ) + absent_upto(
                r.entries,
                bases(t, spec_plurals(id) == Plurals::KeySuffix),
                diverged_upto(r, t, r.entries.len() as int),
                spec_plurals(id) == Plurals::KeySuffix,
                t.path,
                Kind::MissingKey,
                r.entries.len() as int,
            ) + absent_upto(
                t.entries,
                bases(r, spec_plurals(id) == Plurals::KeySuffix),
                diverged_upto(r, t, r.entries.len() as int),
                spec_plurals(id) == Plurals::KeySuffix,
                t.path,
                Kind::ExtraKey,
                t.entries.len() as int,
            ) + compared + spec_empty_findings(t)
            &&& forall|k: int|
                0 <= k < compared.len() && is_placeholder_kind((#[trigger] compared[k]).kind) ==> forall|i: int|
                    0 <= i < conventions.len() ==> conventions[i].key != compared[k].key
            &&& forall|k: int|
                0 <= k < compared.len() ==> exists|i: int|
                    0 <= i < r.entries.len() && (#[trigger] compared[k]).key == utf8(r.entries[i].key) && (lookup(
                        t.entries,
                        r.entries[i].key,
                    ) matches Some(te) && te.text matches Some(tt) && !blank(tt))
        }),
{
    let g = spec_grammar(id);
    let conventions = spec_convention(t, g, keys_are_source);
    lemma_compare_suppressed(r, t, g, keys_are_source, conventions, r.entries.len() as int);
}

} // verus!

verus! {

// ---------------------------------------------------------------------
// No translated value reaches a finding
// ---------------------------------------------------------------------

/// Two translations that read alike, as far as any check can tell: the
/// same reading under the grammar (tokens, foreign constructs and their
/// offsets), the same emptiness, and the same byte-equality with every
/// source text written at that key.
pub open spec fn texts_alike(a: Seq<char>, b: Seq<char>, key: Seq<char>, r: Contents, g: Grammar, keys_are_source: bool) -> bool {
    &&& spec_parse(g, a) == spec_parse(g, b)
    &&& blank(a) == blank(b)
    &&& forall|j: int|
        0 <= j < r.entries.len() && (#[trigger] r.entries[j]).key == key ==> match source_text_of(
            r.entries[j],
            keys_are_source,
        ) {
            Some(st) => (st == a) == (st == b),
            None => true,
        }
}

/// Two entries that differ at most in a translation that reads alike.
pub open spec fn entries_alike(e: EntryModel, f: EntryModel, r: Contents, g: Grammar, keys_are_source: bool) -> bool {
    &&& e.key == f.key
    &&& e.shape == f.shape
    &&& match (e.text, f.text) {
        (None, None) => true,
        (Some(a), Some(b)) => texts_alike(a, b, e.key, r, g, keys_are_source),
        _ => false,
    }
}

/// `t2` is `t` with its translations replaced by texts that read alike.
pub open spec fn catalogues_alike(t: Contents, t2: Contents, r: Contents, g: Grammar, keys_are_source: bool) -> bool {
    &&& t2.path == t.path
    &&& t2.locale == t.locale
    &&& t2.duplicates == t.duplicates
    &&& t2.entries.len() == t.entries.len()
    &&& forall|i: int|
        0 <= i < t.entries.len() ==> entries_alike(#[trigger] t.entries[i], t2.entries[i], r, g, keys_are_source)
}

proof fn lemma_last_at_alike(es: Seq<EntryModel>, fs: Seq<EntryModel>, key: Seq<char>, n: int)
    requires
        es.len() == fs.len(),
        0 <= n <= es.len(),
        forall|i: int| 0 <= i < es.len() ==> (#[trigger] es[i]).key == fs[i].key,
    ensures
        last_at(es, key, n) == last_at(fs, key, n),
    decreases n,
{
    if n > 0 {
        assert(es[n - 1].key == fs[n - 1].key);
        lemma_last_at_alike(es, fs, key, n - 1);
    }
}

proof fn lemma_lookup_alike(t: Contents, t2: Contents, r: Contents, g: Grammar, keys_are_source: bool, key: Seq<char>)
    requires
        catalogues_alike(t, t2, r, g, keys_are_source),
    ensures
        lookup(t.entries, key) is Some <==> lookup(t2.entries, key) is Some,
        lookup(t.entries, key) matches Some(e) ==> entries_alike(e, lookup(t2.entries, key)->0, r, g, keys_are_source)
            && e.key == key,
{
    assert forall|i: int| 0 <= i < t.entries.len() implies (#[trigger] t.entries[i]).key == t2.entries[i].key by {
        assert(entries_alike(t.entries[i], t2.entries[i], r, g, keys_are_source));
    }
    lemma_last_at_alike(t.entries, t2.entries, key, t.entries.len() as int);
    lemma_last_at(t.entries, key, t.entries.len() as int);
    let i = last_at(t.entries, key, t.entries.len() as int);
    if i >= 0 {
        assert(entries_alike(t.entries[i], t2.entries[i], r, g, keys_are_source));
    }
}

proof fn lemma_pieces_alike(t: Contents, t2: Contents, r: Contents, g: Grammar, keys_are_source: bool, n: int)
    requires
        catalogues_alike(t, t2, r, g, keys_are_source),
        0 <= n <= t.entries.len(),
    ensures
        convention_upto(t, g, keys_are_source, n) == convention_upto(t2, g, keys_are_source, n),
        empty_upto(t, n) == empty_upto(t2, n),
    decreases n,
{
    if n > 0 {
        lemma_pieces_alike(t, t2, r, g, keys_are_source, n - 1);
        let e = t.entries[n - 1];
        let f = t2.entries[n - 1];
        assert(entries_alike(e, f, r, g, keys_are_source));
        assert(convention_of(t.path, e, g, keys_are_source) == convention_of(t2.path, f, g, keys_are_source));
        assert(empty_of(t.path, e) == empty_of(t2.path, f));
    }
}

proof fn lemma_extra_alike(
    es: Seq<EntryModel>,
    fs: Seq<EntryModel>,
    present: Seq<Seq<u8>>,
    diverged: Seq<Seq<char>>,
    fold: bool,
    path: Seq<char>,
    kind: Kind,
    n: int,
)
    requires
        es.len() == fs.len(),
        0 <= n <= es.len(),
        forall|i: int| 0 <= i < es.len() ==> (#[trigger] es[i]).key == fs[i].key && es[i].shape == fs[i].shape,
    ensures
        absent_upto(es, present, diverged, fold, path, kind, n) == absent_upto(fs, present, diverged, fold, path, kind, n),
    decreases n,
{
    if n > 0 {
        lemma_extra_alike(es, fs, present, diverged, fold, path, kind, n - 1);
        assert(es[n - 1].key == fs[n - 1].key && es[n - 1].shape == fs[n - 1].shape);
        assert forall|j: int| 0 <= j < n - 1 implies #[trigger] es[j].key == fs[j].key && es[j].shape == fs[j].shape by {}
        assert(first_of_base(es, n - 1, diverged, fold) == first_of_base(fs, n - 1, diverged, fold)) by {
            assert forall|j: int| 0 <= j < n - 1 implies (counted(es[j], diverged) == counted(fs[j], diverged)
                && base_of(es[j].key, fold) == base_of(fs[j].key, fold)) by {
                assert(es[j].key == fs[j].key && es[j].shape == fs[j].shape);
            }
        }
        assert(absent_of(es, n - 1, present, diverged, fold, path, kind) == absent_of(fs, n - 1, present, diverged, fold, path, kind));
    }
}

proof fn lemma_source_pieces_alike(r: Contents, t: Contents, t2: Contents, g: Grammar, keys_are_source: bool, conventions: Seq<Reported>, n: int)
    requires
        catalogues_alike(t, t2, r, g, keys_are_source),
        0 <= n <= r.entries.len(),
    ensures
        structure_upto(r, t, n) == structure_upto(r, t2, n),
        diverged_upto(r, t, n) == diverged_upto(r, t2, n),
        compare_upto(r, t, g, keys_are_source, conventions, n) == compare_upto(r, t2, g, keys_are_source, conventions, n),
    decreases n,
{
    if n > 0 {
        lemma_source_pieces_alike(r, t, t2, g, keys_are_source, conventions, n - 1);
        let e = r.entries[n - 1];
        lemma_lookup_alike(t, t2, r, g, keys_are_source, e.key);
        assert(diverges(e, t.entries) == diverges(e, t2.entries));
        assert(structure_of(e, t) == structure_of(e, t2));
        if let Some(te) = lookup(t.entries, e.key) {
            let te2 = lookup(t2.entries, e.key)->0;
            if let (Some(a), Some(b)) = (te.text, te2.text) {
                assert(texts_alike(a, b, e.key, r, g, keys_are_source));
                assert(r.entries[n - 1].key == te.key);
                if let Some(st) = source_text_of(e, keys_are_source) {
                    assert((st == a) == (st == b));
                    assert(spec_placeholder(st, a, g) == spec_placeholder(st, b, g));
                }
            }
        }
        assert(compare_of(e, t, g, keys_are_source, conventions) == compare_of(e, t2, g, keys_are_source, conventions));
    }
}

/// **No translated value reaches a finding.** Everything a target says
/// against the source is unchanged when its translations are replaced by
/// any texts that read alike — the same tokens, foreign constructs and
/// offsets, the same emptiness, the same byte-equality with the source.
/// A translation reaches the answer through those facts about it, never
/// as text.
pub proof fn law_findings_do_not_depend_on_the_translations(
    r: Contents,
    t: Contents,
    t2: Contents,
    id: Id,
    keys_are_source: bool,
)
    requires
        catalogues_alike(t, t2, r, spec_grammar(id), keys_are_source),
    ensures
        spec_against(r, t, id, keys_are_source) == spec_against(r, t2, id, keys_are_source),
{
    let g = spec_grammar(id);
    let fold = spec_plurals(id) == Plurals::KeySuffix;
    lemma_pieces_alike(t, t2, r, g, keys_are_source, t.entries.len() as int);
    let conventions = spec_convention(t, g, keys_are_source);
    lemma_source_pieces_alike(r, t, t2, g, keys_are_source, conventions, r.entries.len() as int);
    assert forall|i: int| 0 <= i < t.entries.len() implies (#[trigger] t.entries[i]).key == t2.entries[i].key
        && t.entries[i].shape == t2.entries[i].shape by {
        assert(entries_alike(t.entries[i], t2.entries[i], r, g, keys_are_source));
    }
    assert(bases(t, fold) =~= bases(t2, fold));
    let diverged = diverged_upto(r, t, r.entries.len() as int);
    lemma_extra_alike(t.entries, t2.entries, bases(r, fold), diverged, fold, t.path, Kind::ExtraKey, t.entries.len() as int);
}

/// The same holds of a whole audit: with the source catalogue left as it
/// is, replacing the translations of every other catalogue by texts that
/// read alike leaves every finding as it was.
pub proof fn law_an_audit_does_not_depend_on_the_translations(
    files: Seq<Contents>,
    files2: Seq<Contents>,
    source: int,
    id: Id,
    keys_are_source: bool,
)
    requires
        0 <= source < files.len(),
        files2.len() == files.len(),
        files2[source] == files[source],
        forall|i: int|
            0 <= i < files.len() && i != source ==> catalogues_alike(
                #[trigger] files[i],
                files2[i],
                files[source],
                spec_grammar(id),
                keys_are_source,
            ),
    ensures
        spec_audit(files, source, id, keys_are_source) == spec_audit(files2, source, id, keys_are_source),
{
    lemma_audit_alike(files, files2, source, id, keys_are_source, files.len() as int);
}

proof fn lemma_audit_alike(files: Seq<Contents>, files2: Seq<Contents>, source: int, id: Id, keys_are_source: bool, n: int)
    requires
        0 <= source < files.len(),
        files2.len() == files.len(),
        files2[source] == files[source],
        forall|i: int|
            0 <= i < files.len() && i != source ==> catalogues_alike(
                #[trigger] files[i],
                files2[i],
                files[source],
                spec_grammar(id),
                keys_are_source,
            ),
        0 <= n <= files.len(),
    ensures
        audit_upto(files, source, id, keys_are_source, n) == audit_upto(files2, source, id, keys_are_source, n),
    decreases n,
{
    if n > 0 {
        lemma_audit_alike(files, files2, source, id, keys_are_source, n - 1);
        if n - 1 != source {
            assert(catalogues_alike(files[n - 1], files2[n - 1], files[source], spec_grammar(id), keys_are_source));
            law_findings_do_not_depend_on_the_translations(files[source], files[n - 1], files2[n - 1], id, keys_are_source);
        }
    }
}

} // verus!
