//! One audit end to end, over content already in hand: parse, settle the
//! source, audit, summarise. Both surfaces come through here, so a rule
//! can only be written once.
//!
//! The report is one object for the whole run, not one line per file:
//! the answer is about the *set* of catalogues.
//!
//! **There is no timestamp.** A report is a thing to diff, and a clock
//! makes every run differ from every other for a reason that is not the
//! catalogues.

use vstd::prelude::*;

use crate::audit::{
    reports, spec_audit, translatable_upto, message_duplicates, message_entries, Catalogue,
    Contents, Finding, Options, Severity,
};
use crate::catalogue::{not_an_object, spec_parse, Node};
use crate::identify::Signal;
use crate::library::{spec_metadata, Id, Library, Shape};
use crate::locale::{canonical_text, opt_view};
use crate::text::{
    dashless, decimal, joined_with, lemma_dashless, lemma_decimal_dashless, lemma_joined_no_double_dash, lemma_no_double_dash,
    lemma_no_double_dash_joined, mentions, no_double_dash, texts, utf8,
};

verus! {

/// The report's shape. **3 replaced the guessed `profile`/`grammar` pair
/// with `system`**, which names the identified library and the evidence
/// for it.
pub const SCHEMA: u32 = 3;

#[derive(Debug, Clone, Copy, PartialEq, Eq, Structural)]
pub enum Status {
    Clean,
    Findings,
    NoFiles,
}

/// What fails a run.
///
/// `untranslated` is `info` and does not fail by default: an English
/// string added this morning is legitimately untranslated, and a tool that
/// broke the build for it gets switched off within a week.
#[derive(Debug, Clone, Copy, PartialEq, Eq, Structural)]
pub enum FailOn {
    /// Anything that is not `info`.
    Findings,
    /// Also the untranslated ones.
    Untranslated,
    /// Every finding, whatever its severity.
    Any,
}

impl Default for FailOn {
    fn default() -> (r: Self)
        ensures
            r == FailOn::Findings,
    {
        FailOn::Findings
    }
}

pub open spec fn fail_on_refusal(value: Seq<char>) -> Seq<char> {
    "--fail-on takes untranslated or any, not "@ + value
}

/// Whether a finding fails a run under this setting.
pub open spec fn spec_fails(fail_on: FailOn, severity: Severity) -> bool {
    match fail_on {
        FailOn::Any | FailOn::Untranslated => true,
        FailOn::Findings => severity != Severity::Info,
    }
}

impl FailOn {
    pub fn parse(value: &str) -> (r: Result<Self, String>)
        ensures
            value@ == "untranslated"@ ==> r == Ok::<FailOn, String>(FailOn::Untranslated),
            value@ == "any"@ ==> r == Ok::<FailOn, String>(FailOn::Any),
            value@ != "untranslated"@ && value@ != "any"@ ==> (r matches Err(e) && e@ == fail_on_refusal(value@)),
    {
        proof {
            reveal_strlit("untranslated");
            reveal_strlit("any");
            assert("untranslated"@.len() != "any"@.len());
        }
        if crate::text::same(value, "untranslated") {
            Ok(FailOn::Untranslated)
        } else if crate::text::same(value, "any") {
            Ok(FailOn::Any)
        } else {
            let mut e = String::from_str("--fail-on takes untranslated or any, not ");
            e.append(value);
            Err(e)
        }
    }

    pub fn fails(self, finding: &Finding) -> (r: bool)
        ensures
            r == spec_fails(self, finding.severity),
    {
        match self {
            FailOn::Any | FailOn::Untranslated => true,
            FailOn::Findings => finding.severity != Severity::Info,
        }
    }
}

#[derive(Debug, Clone, PartialEq, Eq)]
pub struct Diagnostic {
    pub severity: String,
    pub code: String,
    pub file: String,
    pub message: String,
}

/// A diagnostic as the specification sees it: severity, code, file and
/// message.
pub open spec fn note_of(d: Diagnostic) -> (Seq<char>, Seq<char>, Seq<char>, Seq<char>) {
    (d.severity@, d.code@, d.file@, d.message@)
}

pub open spec fn notes(v: Seq<Diagnostic>) -> Seq<(Seq<char>, Seq<char>, Seq<char>, Seq<char>)> {
    v.map_values(|d: Diagnostic| note_of(d))
}

/// The diagnostic for a catalogue that will not parse.
pub open spec fn unparsable(file: Seq<char>, message: Seq<char>) -> (Seq<char>, Seq<char>, Seq<char>, Seq<char>) {
    ("warning"@, "unparsable"@, file, message)
}

#[derive(Debug, Clone, PartialEq, Eq)]
pub struct FileSummary {
    pub path: String,
    pub locale: Option<String>,
    /// A **count**, not a list. Key names appear only where they are the
    /// finding.
    pub keys: usize,
}

pub open spec fn summary_view(s: FileSummary) -> (Seq<char>, Option<Seq<char>>, nat) {
    (s.path@, opt_view(s.locale), s.keys as nat)
}

pub open spec fn summaries(v: Seq<FileSummary>) -> Seq<(Seq<char>, Option<Seq<char>>, nat)> {
    v.map_values(|s: FileSummary| summary_view(s))
}

/// What the report says of one catalogue.
pub open spec fn summary_of(c: Contents) -> (Seq<char>, Option<Seq<char>>, nat) {
    (c.path, c.locale, translatable_upto(c.entries, c.entries.len() as int))
}

#[derive(Debug, Clone, Copy, PartialEq, Eq, Structural)]
pub struct Summary {
    pub files: usize,
    pub findings: usize,
}

/// Which library the audit was carried out under, and why it thought so:
/// "why did it decide this was i18next" is the first question anyone asks
/// of an answer they did not expect.
#[derive(Debug, Clone)]
pub struct System {
    pub library: Id,
    /// As declared, when a manifest declared one.
    pub version: Option<String>,
    /// `None` when nothing looked at a filesystem to find out.
    pub layout: Option<Shape>,
    pub keys_are_source: bool,
    pub evidence: Vec<Signal>,
}

#[derive(Debug, Clone)]
pub struct Report {
    pub schema: u32,
    pub status: Status,
    pub system: System,
    pub source: Option<FileSummary>,
    pub files: Vec<FileSummary>,
    pub findings: Vec<Finding>,
    pub diagnostics: Vec<Diagnostic>,
    pub summary: Summary,
}

/// One catalogue as either surface supplies it: its name, its locale
/// (`None` is the base catalogue, not "unknown"), and its content as read
/// — the document, or why it is not one.
pub struct Document {
    pub name: String,
    pub locale: Option<String>,
    pub content: Result<Node, String>,
}

#[derive(Debug, Clone)]
pub struct ScanOptions {
    /// A path or a language tag. Absent means auto-detect, which only
    /// answers when exactly one candidate exists.
    pub source: Option<String>,
    /// Forced on. The layout normally decides this on its own.
    pub keys_are_source: bool,
}

impl Default for ScanOptions {
    fn default() -> (r: Self)
        ensures
            r.source is None,
            !r.keys_are_source,
    {
        ScanOptions { source: None, keys_are_source: false }
    }
}

// ---------------------------------------------------------------------
// Which catalogue is the contract
// ---------------------------------------------------------------------

pub open spec fn paths(files: Seq<Contents>) -> Seq<Seq<char>> {
    files.map_values(|c: Contents| c.path)
}

pub open spec fn listed_text(files: Seq<Contents>) -> Seq<char> {
    joined_with(paths(files), ", "@)
}

/// The English catalogue is tagged `en`-something, or untagged:
/// `bundle.l10n.json` and `package.nls.json` both write it without a tag.
pub open spec fn english(c: Contents) -> bool {
    match c.locale {
        None => true,
        Some(l) => l.subrange(0, crate::text::first_char(l, '-', 0)) == "en"@,
    }
}

/// The indices of the English catalogues among the first `n`.
pub open spec fn english_upto(files: Seq<Contents>, n: int) -> Seq<int>
    decreases n,
{
    if n <= 0 {
        seq![]
    } else if english(files[n - 1]) {
        english_upto(files, n - 1).push(n - 1)
    } else {
        english_upto(files, n - 1)
    }
}

pub open spec fn spec_auto_source(files: Seq<Contents>) -> Result<int, Seq<char>> {
    let candidates = english_upto(files, files.len() as int);
    if candidates.len() == 1 {
        Ok(candidates[0])
    } else if candidates.len() == 0 {
        Err("no English catalogue here, so say which one is the source. Found: "@ + listed_text(files))
    } else {
        Err(decimal(candidates.len()) + " catalogues could be the English one, so say which is the source: "@
            + joined_with(candidates.map_values(|i: int| files[i].path), ", "@))
    }
}

/// The first of the first `n` catalogues that `holds` picks, or -1.
pub open spec fn first_where(files: Seq<Contents>, holds: spec_fn(Contents) -> bool, n: int) -> int
    decreases n,
{
    if n <= 0 {
        -1
    } else if first_where(files, holds, n - 1) >= 0 {
        first_where(files, holds, n - 1)
    } else if holds(files[n - 1]) {
        n - 1
    } else {
        -1
    }
}

/// The catalogue the source was named as: by path, or by a language tag
/// in any spelling; or the one English candidate when none was named.
pub open spec fn spec_resolve(files: Seq<Contents>, wanted: Option<Seq<char>>) -> Result<int, Seq<char>> {
    match wanted {
        None => spec_auto_source(files),
        Some(w) => {
            let by_path = first_where(files, |c: Contents| c.path == w, files.len() as int);
            if by_path >= 0 {
                Ok(by_path)
            } else {
                let by_tag = match canonical_text(utf8(w)) {
                    Some(tag) => first_where(files, |c: Contents| c.locale == Some(tag), files.len() as int),
                    None => -1,
                };
                if by_tag >= 0 {
                    Ok(by_tag)
                } else {
                    Err("no catalogue here is called "@ + w + ". Found: "@ + listed_text(files))
                }
            }
        },
    }
}

pub open spec fn contents(files: Seq<Catalogue>) -> Seq<Contents> {
    files.map_values(|c: Catalogue| c@)
}

/// Every catalogue's path, as a refusal lists them.
pub fn listed(files: &Vec<Catalogue>) -> (r: String)
    ensures
        r@ == listed_text(contents(files@)),
{
    let mut parts: Vec<String> = Vec::new();
    let mut i: usize = 0;
    while i < files.len()
        invariant
            0 <= i <= files@.len(),
            parts@.len() == i,
            texts(parts@) == paths(contents(files@)).subrange(0, i as int),
        decreases files@.len() - i,
    {
        parts.push(files[i].path.clone());
        assert(texts(parts@)[i as int] == paths(contents(files@))[i as int]);
        assert(texts(parts@) =~= paths(contents(files@)).subrange(0, i + 1));
        i += 1;
    }
    assert(paths(contents(files@)).subrange(0, files@.len() as int) =~= paths(contents(files@)));
    crate::text::join(&parts, ", ")
}

/// Whether a catalogue is the English one: tagged `en`-something, or
/// untagged.
pub fn is_english(file: &Catalogue) -> (r: bool)
    ensures
        r == english(file@),
{
    match &file.locale {
        None => true,
        Some(locale) => {
            let l = locale.as_str();
            proof {
                crate::text::lemma_first_char(l@, '-', 0);
            }
            match crate::text::split_once(l, '-') {
                Some((language, _)) => crate::text::same(language, "en"),
                None => {
                    proof {
                        assert(l@.subrange(0, l@.len() as int) =~= l@);
                    }
                    crate::text::same(l, "en")
                },
            }
        },
    }
}

/// The paths of the catalogues at `at`, in that order.
fn paths_at(files: &Vec<Catalogue>, at: &Vec<usize>) -> (r: Vec<String>)
    requires
        forall|q: int| 0 <= q < at@.len() ==> at@[q] < files@.len(),
    ensures
        texts(r@) == at@.map_values(|q: usize| contents(files@)[q as int].path),
{
    let ghost cs = contents(files@);
    let mut parts: Vec<String> = Vec::new();
    let mut k: usize = 0;
    while k < at.len()
        invariant
            0 <= k <= at@.len(),
            cs == contents(files@),
            forall|q: int| 0 <= q < at@.len() ==> at@[q] < files@.len(),
            parts@.len() == k,
            texts(parts@) == at@.map_values(|q: usize| cs[q as int].path).subrange(0, k as int),
        decreases at@.len() - k,
    {
        let i = at[k];
        parts.push(files[i].path.clone());
        proof {
            assert(cs[i as int] == files@[i as int]@);
            assert(texts(parts@)[k as int] == at@.map_values(|q: usize| cs[q as int].path)[k as int]);
            assert(texts(parts@) =~= at@.map_values(|q: usize| cs[q as int].path).subrange(0, k + 1));
        }
        k += 1;
    }
    assert(at@.map_values(|q: usize| cs[q as int].path).subrange(0, at@.len() as int) =~= at@.map_values(|q: usize| cs[q as int].path));
    parts
}

/// The one English catalogue, or a refusal that names the fix: guessing
/// between `en.json` and `en-GB.json` would put every later answer on a
/// coin flip.
pub fn auto_source(files: &Vec<Catalogue>) -> (r: Result<usize, String>)
    ensures
        match spec_auto_source(contents(files@)) {
            Ok(i) => r == Ok::<usize, String>(i as usize),
            Err(m) => r matches Err(e) && e@ == m,
        },
{
    let ghost cs = contents(files@);
    let mut candidates: Vec<usize> = Vec::new();
    let mut i: usize = 0;
    while i < files.len()
        invariant
            0 <= i <= files@.len(),
            cs == contents(files@),
            candidates@.map_values(|k: usize| k as int) == english_upto(cs, i as int),
            forall|k: int| 0 <= k < candidates@.len() ==> candidates@[k] < i,
        decreases files@.len() - i,
    {
        proof {
            assert(cs[i as int] == files@[i as int]@);
        }
        let ghost before = candidates@;
        if is_english(&files[i]) {
            candidates.push(i);
            assert(candidates@.map_values(|k: usize| k as int) =~= before.map_values(|k: usize| k as int).push(i as int));
        }
        i += 1;
    }
    let ghost idx = english_upto(cs, cs.len() as int);
    if candidates.len() == 1 {
        assert(idx[0] == candidates@[0] as int);
        return Ok(candidates[0]);
    }
    if candidates.len() == 0 {
        let mut e = String::from_str("no English catalogue here, so say which one is the source. Found: ");
        let l = listed(files);
        e.append(l.as_str());
        return Err(e);
    }
    let parts = paths_at(files, &candidates);
    proof {
        assert(at_paths_agree(candidates@, idx, cs)) by {
            assert(candidates@.map_values(|q: usize| cs[q as int].path) =~= idx.map_values(|q: int| cs[q].path));
        }
    }
    let mut e = crate::text::decimal_text(candidates.len() as u64);
    e.append(" catalogues could be the English one, so say which is the source: ");
    let j = crate::text::join(&parts, ", ");
    e.append(j.as_str());
    Err(e)
}

/// Which catalogue is the contract: the one named, by path or by tag, or
/// the one English candidate. **Never the union of all of them.**
pub fn resolve_source(files: &Vec<Catalogue>, wanted: Option<&str>) -> (r: Result<usize, String>)
    ensures
        match spec_resolve(contents(files@), match wanted { Some(w) => Some(w@), None => None }) {
            Ok(i) => r == Ok::<usize, String>(i as usize) && 0 <= i < files@.len(),
            Err(m) => r matches Err(e) && e@ == m,
        },
{
    let ghost cs = contents(files@);
    proof {
        lemma_english_upto(cs, cs.len() as int);
    }
    let w = match wanted {
        None => {
            proof {
                lemma_english_upto(cs, cs.len() as int);
            }
            return auto_source(files);
        },
        Some(w) => w,
    };
    let mut i: usize = 0;
    proof {
        lemma_first_where_range(cs, |c: Contents| c.path == w@, cs.len() as int);
    }
    while i < files.len() && !crate::text::same(files[i].path.as_str(), w)
        invariant
            0 <= i <= files@.len(),
            cs == contents(files@),
            first_where(cs, |c: Contents| c.path == w@, i as int) == -1,
        decreases files@.len() - i,
    {
        assert(cs[i as int] == files@[i as int]@);
        i += 1;
    }
    if i < files.len() {
        proof {
            assert(cs[i as int] == files@[i as int]@);
            lemma_first_where_stays(cs, |c: Contents| c.path == w@, i + 1, cs.len() as int);
        }
        return Ok(i);
    }
    if let Some(tag) = crate::locale::canonicalise(w) {
        proof {
            lemma_first_where_range(cs, |c: Contents| c.locale == Some(tag@), cs.len() as int);
        }
        let mut k: usize = 0;
        while k < files.len() && !same_locale(&files[k].locale, tag.as_str())
            invariant
                0 <= k <= files@.len(),
                cs == contents(files@),
                first_where(cs, |c: Contents| c.locale == Some(tag@), k as int) == -1,
            decreases files@.len() - k,
        {
            assert(cs[k as int] == files@[k as int]@);
            k += 1;
        }
        if k < files.len() {
            proof {
                assert(cs[k as int] == files@[k as int]@);
                lemma_first_where_stays(cs, |c: Contents| c.locale == Some(tag@), k + 1, cs.len() as int);
            }
            return Ok(k);
        }
    }
    // A refusal from here reaches a terminal *and* an agent, and only one
    // of them has a command line: it names the thing, not the flag.
    let mut e = String::from_str("no catalogue here is called ");
    e.append(w);
    e.append(". Found: ");
    let l = listed(files);
    e.append(l.as_str());
    Err(e)
}

fn same_locale(locale: &Option<String>, tag: &str) -> (r: bool)
    ensures
        r == (opt_view(*locale) == Some(tag@)),
{
    match locale {
        Some(l) => crate::text::same(l.as_str(), tag),
        None => false,
    }
}

pub open spec fn at_paths_agree(at: Seq<usize>, idx: Seq<int>, cs: Seq<Contents>) -> bool {
    at.map_values(|q: usize| cs[q as int].path) == idx.map_values(|q: int| cs[q].path)
}

proof fn lemma_first_where_stays(files: Seq<Contents>, holds: spec_fn(Contents) -> bool, n: int, m: int)
    requires
        n <= m,
        first_where(files, holds, n) >= 0,
    ensures
        first_where(files, holds, m) == first_where(files, holds, n),
    decreases m - n,
{
    if m > n {
        lemma_first_where_stays(files, holds, n, m - 1);
    }
}

proof fn lemma_first_where_range(files: Seq<Contents>, holds: spec_fn(Contents) -> bool, n: int)
    requires
        0 <= n,
    ensures
        -1 <= first_where(files, holds, n) < n,
    decreases n,
{
    if n > 0 {
        lemma_first_where_range(files, holds, n - 1);
    }
}

} // verus!

verus! {

// ---------------------------------------------------------------------
// The report
// ---------------------------------------------------------------------

/// The catalogues among the first `n` documents that parse, each without
/// the library's metadata keys, and a diagnostic for each that does not.
pub open spec fn prepared(documents: Seq<Document>, id: Id, n: int) -> (Seq<Contents>, Seq<(Seq<char>, Seq<char>, Seq<char>, Seq<char>)>)
    decreases n,
{
    if n <= 0 {
        (seq![], seq![])
    } else {
        let (cs, ds) = prepared(documents, id, n - 1);
        let d = documents[n - 1];
        match d.content {
            Err(m) => (cs, ds.push(unparsable(d.name@, m@))),
            Ok(node) => match spec_parse(node) {
                None => (cs, ds.push(unparsable(d.name@, not_an_object()))),
                Some(flat) => (
                    cs.push(
                        Contents {
                            path: d.name@,
                            locale: opt_view(d.locale),
                            entries: message_entries(flat.entries, spec_metadata(id)),
                            duplicates: message_duplicates(flat.duplicates, spec_metadata(id)),
                        },
                    ),
                    ds,
                ),
            },
        }
    }
}

pub open spec fn wanted_view(source: Option<String>) -> Option<Seq<char>> {
    match source {
        Some(s) => Some(s@),
        None => None,
    }
}

/// What the report says of one catalogue: its path, its locale, and how
/// many translatable keys it has.
pub fn summarise(file: &Catalogue) -> (r: FileSummary)
    ensures
        summary_view(r) == summary_of(file@),
{
    FileSummary {
        path: file.path.clone(),
        locale: match &file.locale {
            Some(l) => Some(l.clone()),
            None => None,
        },
        keys: file.key_count(),
    }
}

fn unparsable_note(name: &String, message: String) -> (r: Diagnostic)
    ensures
        note_of(r) == unparsable(name@, message@),
{
    Diagnostic {
        severity: String::from_str("warning"),
        code: String::from_str("unparsable"),
        file: name.clone(),
        message,
    }
}

/// Every document read as a catalogue without the library's metadata, or
/// named in a diagnostic when it is not one.
fn prepare(documents: &Vec<Document>, id: Id) -> (r: (Vec<Catalogue>, Vec<Diagnostic>))
    ensures
        prepared(documents@, id, documents@.len() as int) == (contents(r.0@), notes(r.1@)),
{
    let library = id.library();
    let mut files: Vec<Catalogue> = Vec::new();
    let mut diagnostics: Vec<Diagnostic> = Vec::new();
    let mut i: usize = 0;
    while i < documents.len()
        invariant
            0 <= i <= documents@.len(),
            library.id == id,
            prepared(documents@, id, i as int) == (contents(files@), notes(diagnostics@)),
        decreases documents@.len() - i,
    {
        prepare_one(&documents[i], &library, &mut files, &mut diagnostics);
        i += 1;
    }
    (files, diagnostics)
}

fn prepare_one(document: &Document, library: &Library, files: &mut Vec<Catalogue>, diagnostics: &mut Vec<Diagnostic>)
    ensures
        (contents(final(files)@), notes(final(diagnostics)@)) == ({
            let (cs, ds) = (contents(old(files)@), notes(old(diagnostics)@));
            match document.content {
                Err(m) => (cs, ds.push(unparsable(document.name@, m@))),
                Ok(node) => match spec_parse(node) {
                    None => (cs, ds.push(unparsable(document.name@, not_an_object()))),
                    Some(flat) => (
                        cs.push(
                            Contents {
                                path: document.name@,
                                locale: opt_view(document.locale),
                                entries: message_entries(flat.entries, spec_metadata(library.id)),
                                duplicates: message_duplicates(flat.duplicates, spec_metadata(library.id)),
                            },
                        ),
                        ds,
                    ),
                },
            }
        }),
{
    let ghost before_files = contents(files@);
    let ghost before_notes = notes(diagnostics@);
    match &document.content {
        Err(message) => {
            diagnostics.push(unparsable_note(&document.name, message.clone()));
            assert(notes(diagnostics@) =~= before_notes.push(unparsable(document.name@, message@)));
        },
        Ok(node) => match crate::catalogue::parse(node) {
            Ok(parsed) => {
                let catalogue = Catalogue {
                    path: document.name.clone(),
                    locale: match &document.locale {
                        Some(l) => Some(l.clone()),
                        None => None,
                    },
                    entries: parsed.entries,
                    duplicates: parsed.duplicates,
                };
                let ghost flat = spec_parse(*node)->0;
                assert(catalogue@.entries == flat.entries);
                assert(catalogue@.duplicates =~= flat.duplicates);
                assert(catalogue@.path == document.name@);
                assert(catalogue@.locale == opt_view(document.locale));
                let kept = catalogue.without_metadata(library);
                let ghost expected = Contents {
                    path: document.name@,
                    locale: opt_view(document.locale),
                    entries: message_entries(flat.entries, spec_metadata(library.id)),
                    duplicates: message_duplicates(flat.duplicates, spec_metadata(library.id)),
                };
                assert(kept@ == expected);
                files.push(kept);
                assert(contents(files@) =~= before_files.push(expected));
            },
            Err(reason) => {
                diagnostics.push(unparsable_note(&document.name, reason));
                assert(notes(diagnostics@) =~= before_notes.push(unparsable(document.name@, not_an_object())));
            },
        },
    }
}

/// What the report says of each catalogue, in order.
fn summarise_all(files: &Vec<Catalogue>) -> (r: Vec<FileSummary>)
    ensures
        summaries(r@) == contents(files@).map_values(|c: Contents| summary_of(c)),
        r@.len() == files@.len(),
{
    let ghost cs = contents(files@);
    let mut out: Vec<FileSummary> = Vec::new();
    let mut k: usize = 0;
    while k < files.len()
        invariant
            0 <= k <= files@.len(),
            cs == contents(files@),
            out@.len() == k,
            summaries(out@) == cs.map_values(|c: Contents| summary_of(c)).subrange(0, k as int),
        decreases files@.len() - k,
    {
        out.push(summarise(&files[k]));
        proof {
            assert(cs[k as int] == files@[k as int]@);
            assert(summaries(out@)[k as int] == cs.map_values(|c: Contents| summary_of(c))[k as int]);
            assert(summaries(out@) =~= cs.map_values(|c: Contents| summary_of(c)).subrange(0, k + 1));
        }
        k += 1;
    }
    assert(cs.map_values(|c: Contents| summary_of(c)).subrange(0, cs.len() as int) =~= cs.map_values(|c: Contents| summary_of(c)));
    out
}

/// The audit itself, over content that is already in hand and a library
/// that has already been settled.
pub fn report_for(documents: &Vec<Document>, system: System, options: &ScanOptions) -> (r: Result<Report, String>)
    ensures
        ({
            let (cs, ds) = prepared(documents@, system.library, documents@.len() as int);
            let keys_are_source = system.keys_are_source || options.keys_are_source;
            &&& cs.len() == 0 ==> (r matches Ok(rep) && rep.schema == SCHEMA && rep.status == Status::NoFiles
                && rep.system == system && rep.source is None && rep.files@.len() == 0 && rep.findings@.len() == 0
                && notes(rep.diagnostics@) == ds && rep.summary == Summary { files: 0, findings: 0 })
            &&& cs.len() > 0 ==> match spec_resolve(cs, wanted_view(options.source)) {
                Err(m) => r matches Err(e) && e@ == m,
                Ok(i) => r matches Ok(rep) && rep.schema == SCHEMA && rep.system == system && notes(rep.diagnostics@) == ds
                    && reports(rep.findings@) == spec_audit(cs, i, system.library, keys_are_source)
                    && rep.status == (if rep.findings@.len() == 0 {
                        Status::Clean
                    } else {
                        Status::Findings
                    }) && summaries(rep.files@) == cs.map_values(|c: Contents| summary_of(c))
                    && (rep.source matches Some(s) && summary_view(s) == summary_of(cs[i]))
                    && rep.summary == Summary { files: cs.len() as usize, findings: rep.findings@.len() as usize },
            }
        }),
{
    let keys_are_source = system.keys_are_source || options.keys_are_source;
    let (files, diagnostics) = prepare(documents, system.library);
    let ghost cs = contents(files@);
    if files.len() == 0 {
        return Ok(Report {
            schema: SCHEMA,
            status: Status::NoFiles,
            system,
            source: None,
            files: Vec::new(),
            findings: Vec::new(),
            diagnostics,
            summary: Summary { files: 0, findings: 0 },
        });
    }
    let wanted = match &options.source {
        Some(s) => Some(s.as_str()),
        None => None,
    };
    assert(match wanted {
        Some(w) => Some(w@),
        None => None::<Seq<char>>,
    } == wanted_view(options.source));
    let source = match resolve_source(&files, wanted) {
        Ok(s) => s,
        Err(e) => {
            return Err(e);
        },
    };
    let findings = crate::audit::audit(files.as_slice(), source, Options { library: system.library, keys_are_source });
    let summaries_made = summarise_all(&files);
    let source_summary = summarise(&files[source]);
    assert(cs[source as int] == files@[source as int]@);
    let status = if findings.len() == 0 {
        Status::Clean
    } else {
        Status::Findings
    };
    let summary = Summary { files: summaries_made.len(), findings: findings.len() };
    Ok(Report {
        schema: SCHEMA,
        status,
        system,
        source: Some(source_summary),
        files: summaries_made,
        findings,
        diagnostics,
        summary,
    })
}

/// Some finding fails the run.
pub open spec fn any_fails(findings: Seq<Finding>, fail_on: FailOn) -> bool {
    exists|i: int| 0 <= i < findings.len() && spec_fails(fail_on, (#[trigger] findings[i]).severity)
}

/// 0 clean, 1 findings, 2 could not answer. **This crate has a verdict**:
/// the exit code is the product.
pub fn exit_code(report: &Report, fail_on: FailOn, strict: bool) -> (r: u8)
    ensures
        r == if strict && report.diagnostics@.len() > 0 {
            2u8
        } else if any_fails(report.findings@, fail_on) {
            1u8
        } else {
            0u8
        },
{
    if strict && report.diagnostics.len() > 0 {
        return 2;
    }
    let mut i: usize = 0;
    while i < report.findings.len()
        invariant
            0 <= i <= report.findings@.len(),
            !(strict && report.diagnostics@.len() > 0),
            forall|j: int| 0 <= j < i ==> !spec_fails(fail_on, (#[trigger] report.findings@[j]).severity),
        decreases report.findings@.len() - i,
    {
        if fail_on.fails(&report.findings[i]) {
            assert(spec_fails(fail_on, report.findings@[i as int].severity));
            assert(any_fails(report.findings@, fail_on));
            return 1;
        }
        i += 1;
    }
    0
}

} // verus!

verus! {

proof fn lemma_prepared_counts(documents: Seq<Document>, id: Id, n: int)
    requires
        0 <= n <= documents.len(),
    ensures
        prepared(documents, id, n).0.len() + prepared(documents, id, n).1.len() == n,
    decreases n,
{
    if n > 0 {
        lemma_prepared_counts(documents, id, n - 1);
    }
}

/// Nothing is dropped: every document handed to an audit is either read
/// as a catalogue or named in a diagnostic, never both and never neither.
pub proof fn law_every_document_is_read_or_named(documents: Seq<Document>, id: Id)
    ensures
        prepared(documents, id, documents.len() as int).0.len() + prepared(
            documents,
            id,
            documents.len() as int,
        ).1.len() == documents.len(),
{
    lemma_prepared_counts(documents, id, documents.len() as int);
}

/// The default keeps the tool switched on: findings that are only
/// information (an untranslated string) never fail a run unless asked,
/// and a report with nothing to say exits 0 however strict the caller.
pub proof fn law_information_alone_never_fails_by_default(findings: Seq<Finding>)
    requires
        forall|i: int| 0 <= i < findings.len() ==> (#[trigger] findings[i]).severity == Severity::Info,
    ensures
        !any_fails(findings, FailOn::Findings),
{
}

/// The default gate fails a run on every finding that is more than
/// information: a warning fails it as surely as an error, and a run is
/// clean by default exactly when everything it found is information.
pub proof fn law_the_default_fails_on_warnings_and_errors(findings: Seq<Finding>)
    ensures
        any_fails(findings, FailOn::Findings) == exists|i: int|
            0 <= i < findings.len() && ((#[trigger] findings[i]).severity == Severity::Warning || findings[i].severity
                == Severity::Error),
{
    if exists|i: int| 0 <= i < findings.len() && ((#[trigger] findings[i]).severity == Severity::Warning
        || findings[i].severity == Severity::Error) {
        let i = choose|i: int| 0 <= i < findings.len() && ((#[trigger] findings[i]).severity == Severity::Warning
            || findings[i].severity == Severity::Error);
        assert(findings[i].severity != Severity::Info);
    }
    if any_fails(findings, FailOn::Findings) {
        let i = choose|i: int| 0 <= i < findings.len() && spec_fails(FailOn::Findings, (#[trigger] findings[i]).severity);
        assert(findings[i].severity == Severity::Warning || findings[i].severity == Severity::Error);
    }
}

/// Asking for more never fails less: whatever fails a run by default also
/// fails it under `untranslated` and under `any`, and those two fail on
/// any finding at all.
pub proof fn law_asking_for_more_never_fails_less(findings: Seq<Finding>)
    ensures
        any_fails(findings, FailOn::Findings) ==> any_fails(findings, FailOn::Untranslated),
        any_fails(findings, FailOn::Untranslated) == (findings.len() > 0),
        any_fails(findings, FailOn::Any) == (findings.len() > 0),
{
    if findings.len() > 0 {
        assert(spec_fails(FailOn::Untranslated, findings[0].severity));
        assert(spec_fails(FailOn::Any, findings[0].severity));
    }
}

} // verus!

verus! {

/// The diagnostic for a catalogue that was found but could not be read:
/// named, so the answer is not quietly narrower than it looks, and the
/// run goes on with the rest.
pub fn skipped(file: String, reason: String) -> (r: Diagnostic)
    ensures
        note_of(r) == ("warning"@, "skipped"@, file@, reason@),
{
    Diagnostic { severity: String::from_str("warning"), code: String::from_str("skipped"), file, message: reason }
}

/// The report with the diagnostics of what could not be read put first,
/// ahead of those the audit itself raised.
pub fn prepend(report: &mut Report, diagnostics: Vec<Diagnostic>)
    ensures
        final(report).diagnostics@ == diagnostics@ + old(report).diagnostics@,
        final(report).findings == old(report).findings,
        final(report).files == old(report).files,
        final(report).source == old(report).source,
        final(report).status == old(report).status,
        final(report).summary == old(report).summary,
        final(report).schema == old(report).schema,
        final(report).system == old(report).system,
{
    let mut all = diagnostics;
    let mut rest: Vec<Diagnostic> = Vec::new();
    std::mem::swap(&mut rest, &mut report.diagnostics);
    all.append(&mut rest);
    report.diagnostics = all;
}

} // verus!

verus! {

proof fn lemma_english_upto(files: Seq<Contents>, n: int)
    requires
        0 <= n <= files.len(),
    ensures
        forall|k: int|
            0 <= k < english_upto(files, n).len() ==> 0 <= #[trigger] english_upto(files, n)[k] < n && english(
                files[english_upto(files, n)[k]],
            ),
        forall|j: int| 0 <= j < n && english(files[j]) ==> #[trigger] english_upto(files, n).contains(j),
        forall|k: int, m: int|
            0 <= k < m < english_upto(files, n).len() ==> #[trigger] english_upto(files, n)[k]
                < #[trigger] english_upto(files, n)[m],
    decreases n,
{
    if n > 0 {
        lemma_english_upto(files, n - 1);
        let before = english_upto(files, n - 1);
        if english(files[n - 1]) {
            let after = before.push(n - 1);
            assert forall|j: int| 0 <= j < n && english(files[j]) implies #[trigger] after.contains(j) by {
                if j < n - 1 {
                    assert(before.contains(j));
                    let k = choose|k: int| 0 <= k < before.len() && before[k] == j;
                    assert(after[k] == j);
                } else {
                    assert(after[before.len() as int] == j);
                }
            }
        }
    }
}

/// Auto-detection answers or refuses; it never guesses. The source it
/// settles on is English and no other catalogue is, and where two
/// catalogues could each be the English one, it refuses.
pub proof fn law_auto_detection_never_guesses(files: Seq<Contents>)
    ensures
        spec_auto_source(files) matches Ok(i) ==> 0 <= i < files.len() && english(files[i]) && forall|j: int|
            0 <= j < files.len() && j != i ==> !english(#[trigger] files[j]),
        forall|a: int, b: int|
            0 <= a < files.len() && 0 <= b < files.len() && a != b && english(#[trigger] files[a]) && english(
                #[trigger] files[b],
            ) ==> spec_auto_source(files) is Err,
{
    let n = files.len() as int;
    lemma_english_upto(files, n);
    let c = english_upto(files, n);
    assert forall|a: int, b: int|
        0 <= a < files.len() && 0 <= b < files.len() && a != b && english(#[trigger] files[a]) && english(
            #[trigger] files[b],
        ) implies spec_auto_source(files) is Err by {
        assert(c.contains(a));
        assert(c.contains(b));
        if c.len() == 1 {
            let ka = choose|k: int| 0 <= k < c.len() && c[k] == a;
            let kb = choose|k: int| 0 <= k < c.len() && c[k] == b;
            assert(ka == 0 && kb == 0);
        }
    }
    if c.len() == 1 {
        assert forall|j: int| 0 <= j < files.len() && j != c[0] implies !english(#[trigger] files[j]) by {
            if english(files[j]) {
                assert(c.contains(j));
                let k = choose|k: int| 0 <= k < c.len() && c[k] == j;
                assert(k == 0);
            }
        }
    }
}

} // verus!

verus! {

proof fn lemma_first_where(files: Seq<Contents>, holds: spec_fn(Contents) -> bool, n: int)
    requires
        0 <= n <= files.len(),
    ensures
        first_where(files, holds, n) == -1 <==> forall|j: int| 0 <= j < n ==> !holds(#[trigger] files[j]),
        first_where(files, holds, n) >= 0 ==> first_where(files, holds, n) < n && holds(files[first_where(files, holds, n)])
            && forall|j: int| 0 <= j < first_where(files, holds, n) ==> !holds(#[trigger] files[j]),
    decreases n,
{
    if n > 0 {
        lemma_first_where(files, holds, n - 1);
    }
}

/// Auto-detection never picks one of several answers, and its refusal
/// names the way out: with no English candidate it lists every catalogue
/// there is, and with several it names each candidate.
pub proof fn law_an_auto_source_refusal_names_the_candidates(files: Seq<Contents>)
    ensures
        ({
            let c = english_upto(files, files.len() as int);
            &&& c.len() == 1 ==> spec_auto_source(files) == Ok::<int, Seq<char>>(c[0])
            &&& c.len() == 0 ==> spec_auto_source(files) == Err::<int, Seq<char>>(
                "no English catalogue here, so say which one is the source. Found: "@ + listed_text(files),
            )
            &&& c.len() == 0 ==> forall|j: int|
                0 <= j < files.len() ==> crate::text::mentions(spec_auto_source(files)->Err_0, #[trigger] files[j].path)
            &&& c.len() >= 2 ==> spec_auto_source(files) is Err && forall|k: int|
                0 <= k < c.len() ==> crate::text::mentions(spec_auto_source(files)->Err_0, files[#[trigger] c[k]].path)
        }),
{
    let c = english_upto(files, files.len() as int);
    if c.len() == 0 {
        let head = "no English catalogue here, so say which one is the source. Found: "@;
        assert forall|j: int| 0 <= j < files.len() implies crate::text::mentions(
            spec_auto_source(files)->Err_0,
            #[trigger] files[j].path,
        ) by {
            crate::text::lemma_joined_mentions(paths(files), ", "@, j);
            crate::text::lemma_mentions_within(head, listed_text(files), Seq::empty(), files[j].path);
            assert(head + listed_text(files) + Seq::<char>::empty() =~= head + listed_text(files));
        }
    }
    if c.len() >= 2 {
        let head = decimal(c.len()) + " catalogues could be the English one, so say which is the source: "@;
        let listing = joined_with(c.map_values(|i: int| files[i].path), ", "@);
        assert forall|k: int| 0 <= k < c.len() implies crate::text::mentions(
            spec_auto_source(files)->Err_0,
            files[#[trigger] c[k]].path,
        ) by {
            crate::text::lemma_joined_mentions(c.map_values(|i: int| files[i].path), ", "@, k);
            crate::text::lemma_mentions_within(head, listing, Seq::empty(), files[c[k]].path);
            assert(head + listing + Seq::<char>::empty() =~= head + listing);
        }
    }
}

/// A named source is found by its path first, then by its language tag in
/// any spelling; failing both, the refusal names what was asked for and
/// every catalogue there is. Unnamed, it is the auto-detected one.
pub proof fn law_a_named_source_is_found_by_path_then_tag(files: Seq<Contents>, wanted: Option<Seq<char>>)
    ensures
        wanted is None ==> spec_resolve(files, wanted) == spec_auto_source(files),
        wanted matches Some(w) ==> {
            let n = files.len() as int;
            &&& (exists|j: int| 0 <= j < n && files[j].path == w) ==> (spec_resolve(files, wanted) matches Ok(i) && 0 <= i
                < n && files[i].path == w && forall|j: int| 0 <= j < i ==> files[j].path != w)
            &&& (forall|j: int| 0 <= j < n ==> files[j].path != w) ==> match canonical_text(utf8(w)) {
                Some(tag) => if exists|j: int| 0 <= j < n && files[j].locale == Some(tag) {
                    (spec_resolve(files, wanted) matches Ok(i) && 0 <= i < n && files[i].locale == Some(tag) && forall|j: int|
                        0 <= j < i ==> files[j].locale != Some(tag))
                } else {
                    spec_resolve(files, wanted) is Err
                },
                None => spec_resolve(files, wanted) is Err,
            }
            &&& (spec_resolve(files, wanted) matches Err(m) ==> crate::text::mentions(m, w) && forall|j: int|
                0 <= j < n ==> crate::text::mentions(m, #[trigger] files[j].path))
        },
{
    if let Some(w) = wanted {
        let n = files.len() as int;
        let by_path = |c: Contents| c.path == w;
        lemma_first_where(files, by_path, n);
        if let Some(tag) = canonical_text(utf8(w)) {
            lemma_first_where(files, |c: Contents| c.locale == Some(tag), n);
        }
        if let Err(m) = spec_resolve(files, wanted) {
            let head = "no catalogue here is called "@;
            let mid = ". Found: "@;
            assert(m == head + w + mid + listed_text(files));
            let j0: int = head.len() as int;
            assert(m.subrange(j0, j0 + w.len()) =~= w);
            assert(crate::text::mentions(m, w));
            assert forall|j: int| 0 <= j < n implies crate::text::mentions(m, #[trigger] files[j].path) by {
                crate::text::lemma_joined_mentions(paths(files), ", "@, j);
                crate::text::lemma_mentions_within(head + w + mid, listed_text(files), Seq::empty(), files[j].path);
                assert(head + w + mid + listed_text(files) + Seq::<char>::empty() =~= m);
            }
        }
    }
}

/// A refusal to settle on a source names no flag: it holds no `--`
/// unless a path it lists, or the name that was asked for, does. A person
/// reads it as a question about their files, never as advice to type an
/// option.
pub proof fn law_a_source_refusal_names_no_flag(files: Seq<Contents>, wanted: Option<Seq<char>>)
    requires
        forall|j: int| 0 <= j < files.len() ==> !mentions(#[trigger] files[j].path, "--"@),
        wanted matches Some(w) ==> !mentions(w, "--"@),
    ensures
        spec_resolve(files, wanted) matches Err(m) ==> !mentions(m, "--"@),
{
    let sep = ", "@;
    reveal_strlit(", ");
    assert(no_double_dash(sep)) by {
        assert(dashless(sep));
        lemma_dashless(sep);
    }
    assert forall|j: int| 0 <= j < paths(files).len() implies no_double_dash(#[trigger] paths(files)[j]) by {
        lemma_no_double_dash(files[j].path);
    }
    lemma_joined_no_double_dash(paths(files), sep);
    let listed = listed_text(files);
    let c = english_upto(files, files.len() as int);
    if let Err(m) = spec_resolve(files, wanted) {
        match wanted {
            None => {
                if c.len() == 0 {
                    let head = "no English catalogue here, so say which one is the source. Found: "@;
                    reveal_strlit("no English catalogue here, so say which one is the source. Found: ");
                    assert(dashless(head));
                    lemma_dashless(head);
                    lemma_no_double_dash_joined(head, listed);
                    lemma_no_double_dash(head + listed);
                } else {
                    let named = c.map_values(|i: int| files[i].path);
                    lemma_english_upto(files, files.len() as int);
                    assert forall|k: int| 0 <= k < named.len() implies no_double_dash(#[trigger] named[k]) by {
                        lemma_no_double_dash(files[c[k]].path);
                    }
                    lemma_joined_no_double_dash(named, sep);
                    let count = decimal(c.len());
                    let head = " catalogues could be the English one, so say which is the source: "@;
                    reveal_strlit(" catalogues could be the English one, so say which is the source: ");
                    lemma_decimal_dashless(c.len());
                    lemma_dashless(count);
                    assert(dashless(head));
                    lemma_dashless(head);
                    assert(head[0] == ' ');
                    lemma_no_double_dash_joined(count, head);
                    lemma_no_double_dash_joined(count + head, joined_with(named, sep));
                    lemma_no_double_dash(count + head + joined_with(named, sep));
                }
            },
            Some(w) => {
                let head = "no catalogue here is called "@;
                let mid = ". Found: "@;
                reveal_strlit("no catalogue here is called ");
                reveal_strlit(". Found: ");
                assert(m == head + w + mid + listed);
                assert(dashless(head));
                assert(dashless(mid));
                lemma_dashless(head);
                lemma_dashless(mid);
                lemma_no_double_dash(w);
                lemma_no_double_dash_joined(head, w);
                assert(mid[0] == '.');
                lemma_no_double_dash_joined(head + w, mid);
                assert((head + w + mid).last() == ' ');
                lemma_no_double_dash_joined(head + w + mid, listed);
                lemma_no_double_dash(m);
            },
        }
    }
}

} // verus!
