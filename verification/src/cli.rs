//! The terminal surface's rules: which arguments mean what, and how a
//! report reads as lines.
//!
//! stdout is protocol — **one JSON report for the whole run** — and stderr
//! is for the human, a projection of the same report. Printing either is
//! the program's; what it prints is decided here.

use vstd::prelude::*;

use crate::audit::{Evidence, Finding, Kind};
use crate::catalogue::Shape as KeyShape;
use crate::identify::Requested;
use crate::library::{every_id, id_name, Id, Interpolation};
use crate::message::Construct;
use crate::scan::{fail_on_refusal, FailOn, Report, ScanOptions, Status};
use crate::text::{decimal, joined_with, texts};

verus! {

pub const USAGE: &'static str = "usage: i18n-le [options] <dir|file>...
       i18n-le mcp
       i18n-le --version | --help

Audits a set of translation catalogues against one of them and reports
what is structurally wrong: keys a locale is missing or has too many of,
placeholders dropped or renamed in translation, constructs from the
wrong convention, values left empty, keys defined twice, and a path that
is an object in one locale and a string in another.

It works out which i18n library the project uses before it reads
anything, from five kinds of evidence — a manifest dependency, a config
file, the directory layout, the catalogue's own syntax, and call sites
in source. Two agreeing is an identification. The library then supplies
the placeholder grammar, the plural model, which keys are metadata and
how the files are laid out; nothing downstream guesses. If no library
can be identified, the run says which signals it found and stops.

Only key names and structural facts are reported. No translated value
ever reaches stdout, stderr or an agent — a renamed placeholder is
proved by its tokens, and an untranslated string by the fact that it is
byte-identical to the English.

Options:
  --system <name>          the library to audit as, skipping
                           identification
  --source <path|locale>   the catalogue every other is measured against;
                           auto-detected only when exactly one English
                           candidate exists
  --keys-are-source        the key is the English string, as in a VS Code
                           bundle.l10n.json
  --fail-on <what>         untranslated, or any — what else fails the run
                           besides the findings that already do
  --strict                 also fail when a catalogue could not be read
                           or parsed

Exit codes: 0 clean · 1 findings · 2 malformed question. Finding no
catalogues at all is 0 — there is nothing to be wrong with.";

/// Every flag the parser accepts, in the order the usage text names them.
pub open spec fn spec_flags() -> Seq<&'static str> {
    seq!["--system", "--source", "--keys-are-source", "--fail-on", "--strict"]
}

pub fn flags() -> (r: Vec<&'static str>)
    ensures
        r@ == spec_flags(),
{
    let mut r = Vec::new();
    r.push("--system");
    r.push("--source");
    r.push("--keys-are-source");
    r.push("--fail-on");
    r.push("--strict");
    assert(r@ =~= spec_flags());
    r
}

/// What a command line asked for.
#[derive(Debug, Clone)]
pub struct Cli {
    pub inputs: Vec<String>,
    pub requested: Requested,
    pub scan: ScanOptions,
    pub fail_on: FailOn,
    /// Fail the run when a file could not be read.
    pub strict: bool,
}

/// A command line as the specification sees it.
pub struct Asked {
    pub inputs: Seq<Seq<char>>,
    pub requested: Requested,
    pub source: Option<Seq<char>>,
    pub keys_are_source: bool,
    pub fail_on: FailOn,
    pub strict: bool,
}

impl View for Cli {
    type V = Asked;

    open spec fn view(&self) -> Asked {
        Asked {
            inputs: texts(self.inputs@),
            requested: self.requested,
            source: match self.scan.source {
                Some(s) => Some(s@),
                None => None,
            },
            keys_are_source: self.scan.keys_are_source,
            fail_on: self.fail_on,
            strict: self.strict,
        }
    }
}

pub open spec fn known_names() -> Seq<char> {
    joined_with(every_id().map_values(|id: Id| id_name(id)@), ", "@)
}

/// The library a name names.
pub open spec fn named(text: Seq<char>) -> Option<Id> {
    if exists|id: Id| id_name(id)@ == text {
        Some(choose|id: Id| id_name(id)@ == text)
    } else {
        None
    }
}

pub open spec fn is_flag(arg: Seq<char>) -> bool {
    exists|i: int| 0 <= i < spec_flags().len() && spec_flags()[i]@ == arg
}

pub open spec fn starts_dash(arg: Seq<char>) -> bool {
    arg.len() > 0 && arg[0] == '-'
}

pub open spec fn fail_on_of(value: Seq<char>) -> Result<FailOn, Seq<char>> {
    if value == "untranslated"@ {
        Ok(FailOn::Untranslated)
    } else if value == "any"@ {
        Ok(FailOn::Any)
    } else {
        Err(fail_on_refusal(value))
    }
}

/// The command line `args[i..]` asks for, after `asked` so far.
pub open spec fn parse_from(args: Seq<Seq<char>>, i: int, asked: Asked) -> Result<Asked, Seq<char>>
    decreases args.len() - i,
{
    if i < 0 || i >= args.len() {
        if asked.inputs.len() == 0 {
            Err("name the directory holding the catalogues. Try --help."@)
        } else {
            Ok(asked)
        }
    } else {
        let arg = args[i];
        // Strict parsing, never a silent default: a typo'd `--surce` that
        // quietly did nothing would check against a contract nobody asked
        // for.
        if starts_dash(arg) && !is_flag(arg) {
            Err(arg + " is not an option. Try --help."@)
        } else if arg == "--keys-are-source"@ {
            parse_from(args, i + 1, Asked { keys_are_source: true, ..asked })
        } else if arg == "--strict"@ {
            parse_from(args, i + 1, Asked { strict: true, ..asked })
        } else if arg == "--system"@ {
            if i + 1 >= args.len() {
                Err("--system needs one of "@ + known_names())
            } else {
                match named(args[i + 1]) {
                    Some(id) => parse_from(args, i + 2, Asked { requested: Requested::Named(id), ..asked }),
                    None => Err(args[i + 1] + " is not a library this reads. Try one of "@ + known_names() + "."@),
                }
            }
        } else if arg == "--source"@ {
            if i + 1 >= args.len() {
                Err("--source needs a path or a language tag"@)
            } else {
                parse_from(args, i + 2, Asked { source: Some(args[i + 1]), ..asked })
            }
        } else if arg == "--fail-on"@ {
            if i + 1 >= args.len() {
                Err("--fail-on needs untranslated or any"@)
            } else {
                match fail_on_of(args[i + 1]) {
                    Ok(f) => parse_from(args, i + 2, Asked { fail_on: f, ..asked }),
                    Err(e) => Err(e),
                }
            }
        } else {
            parse_from(args, i + 1, Asked { inputs: asked.inputs.push(arg), ..asked })
        }
    }
}

pub open spec fn nothing_asked() -> Asked {
    Asked {
        inputs: seq![],
        requested: Requested::Detect,
        source: None,
        keys_are_source: false,
        fail_on: FailOn::Findings,
        strict: false,
    }
}

pub fn known_list() -> (r: String)
    ensures
        r@ == known_names(),
{
    let names = crate::library::names();
    let mut owned: Vec<String> = Vec::new();
    let mut i: usize = 0;
    while i < names.len()
        invariant
            0 <= i <= names@.len(),
            names@ == every_id().map_values(|id: Id| id_name(id)),
            owned@.len() == i,
            texts(owned@) == every_id().map_values(|id: Id| id_name(id)@).subrange(0, i as int),
        decreases names@.len() - i,
    {
        owned.push(String::from_str(names[i]));
        assert(texts(owned@)[i as int] == every_id().map_values(|id: Id| id_name(id)@)[i as int]);
        assert(texts(owned@) =~= every_id().map_values(|id: Id| id_name(id)@).subrange(0, i + 1));
        i += 1;
    }
    assert(every_id().map_values(|id: Id| id_name(id)@).subrange(0, 4) =~= every_id().map_values(|id: Id| id_name(id)@));
    crate::text::join(&owned, ", ")
}

fn flag_known(arg: &str) -> (r: bool)
    ensures
        r == is_flag(arg@),
{
    let all = flags();
    let mut i: usize = 0;
    while i < all.len()
        invariant
            0 <= i <= all@.len(),
            all@ == spec_flags(),
            forall|j: int| 0 <= j < i ==> spec_flags()[j]@ != arg@,
        decreases all@.len() - i,
    {
        if crate::text::same(all[i], arg) {
            return true;
        }
        i += 1;
    }
    false
}

/// What a command line asks for, or why it is not a question: an unknown
/// flag, a flag without its value, a library this does not read, or no
/// directory named at all — there is no working-directory default.
pub fn parse(args: &Vec<String>) -> (r: Result<Cli, String>)
    ensures
        match parse_from(texts(args@), 0, nothing_asked()) {
            Ok(asked) => r matches Ok(cli) && cli@ == asked,
            Err(m) => r matches Err(e) && e@ == m,
        },
{
    let ghost a = texts(args@);
    let mut options = Cli {
        inputs: Vec::new(),
        requested: Requested::Detect,
        scan: ScanOptions { source: None, keys_are_source: false },
        fail_on: FailOn::Findings,
        strict: false,
    };
    proof {
        assert(texts(options.inputs@) =~= Seq::<Seq<char>>::empty());
        assert(options@ == nothing_asked());
        reveal_strlit("--keys-are-source");
        reveal_strlit("--strict");
        reveal_strlit("--system");
        reveal_strlit("--source");
        reveal_strlit("--fail-on");
        crate::library::lemma_names_are_distinct(Id::I18next, Id::I18next);
    }
    let mut i: usize = 0;
    while i < args.len()
        invariant
            0 <= i <= args@.len(),
            a == texts(args@),
            parse_from(a, 0, nothing_asked()) == parse_from(a, i as int, options@),
        decreases args@.len() - i,
    {
        let arg = args[i].as_str();
        proof {
            assert(a[i as int] == arg@);
        }
        if !arg.is_empty() && arg.get_char(0) == '-' && !flag_known(arg) {
            let mut e = String::from_str(arg);
            e.append(" is not an option. Try --help.");
            return Err(e);
        }
        if crate::text::same(arg, "--keys-are-source") {
            options.scan.keys_are_source = true;
            i += 1;
        } else if crate::text::same(arg, "--strict") {
            options.strict = true;
            i += 1;
        } else if crate::text::same(arg, "--system") {
            if i + 1 >= args.len() {
                let mut e = String::from_str("--system needs one of ");
                let k = known_list();
                e.append(k.as_str());
                return Err(e);
            }
            let value = args[i + 1].as_str();
            proof {
                assert(a[i + 1] == value@);
            }
            match Id::parse(value) {
                Some(id) => {
                    proof {
                        let chosen = choose|x: Id| id_name(x)@ == value@;
                        crate::library::lemma_names_are_distinct(chosen, id);
                    }
                    options.requested = Requested::Named(id);
                },
                None => {
                    let mut e = String::from_str(value);
                    e.append(" is not a library this reads. Try one of ");
                    let k = known_list();
                    e.append(k.as_str());
                    e.append(".");
                    return Err(e);
                },
            }
            i += 2;
        } else if crate::text::same(arg, "--source") {
            if i + 1 >= args.len() {
                return Err(String::from_str("--source needs a path or a language tag"));
            }
            proof {
                assert(a[i + 1] == args@[i + 1]@);
            }
            options.scan.source = Some(args[i + 1].clone());
            i += 2;
        } else if crate::text::same(arg, "--fail-on") {
            if i + 1 >= args.len() {
                return Err(String::from_str("--fail-on needs untranslated or any"));
            }
            proof {
                assert(a[i + 1] == args@[i + 1]@);
            }
            match FailOn::parse(args[i + 1].as_str()) {
                Ok(f) => {
                    options.fail_on = f;
                },
                Err(e) => {
                    return Err(e);
                },
            }
            i += 2;
        } else {
            let ghost before = texts(options.inputs@);
            options.inputs.push(args[i].clone());
            assert(texts(options.inputs@) =~= before.push(arg@));
            i += 1;
        }
    }
    if options.inputs.len() == 0 {
        return Err(String::from_str("name the directory holding the catalogues. Try --help."));
    }
    Ok(options)
}

} // verus!

verus! {

// ---------------------------------------------------------------------
// A report as lines
// ---------------------------------------------------------------------

pub open spec fn kind_text(kind: Kind) -> Seq<char> {
    match kind {
        Kind::MissingKey => "missing"@,
        Kind::ExtraKey => "extra"@,
        Kind::PlaceholderCountMismatch => "placeholder count"@,
        Kind::PlaceholderNameMismatch => "placeholder renamed"@,
        Kind::PlaceholderStyleMismatch => "placeholder style"@,
        Kind::ConventionMismatch => "wrong convention in"@,
        Kind::EmptyValue => "empty"@,
        Kind::Untranslated => "untranslated"@,
        Kind::DuplicateKeyWithinFile => "duplicate"@,
        Kind::StructureMismatch => "structure"@,
    }
}

pub fn kind(k: Kind) -> (r: &'static str)
    ensures
        r@ == kind_text(k),
{
    match k {
        Kind::MissingKey => "missing",
        Kind::ExtraKey => "extra",
        Kind::PlaceholderCountMismatch => "placeholder count",
        Kind::PlaceholderNameMismatch => "placeholder renamed",
        Kind::PlaceholderStyleMismatch => "placeholder style",
        Kind::ConventionMismatch => "wrong convention in",
        Kind::EmptyValue => "empty",
        Kind::Untranslated => "untranslated",
        Kind::DuplicateKeyWithinFile => "duplicate",
        Kind::StructureMismatch => "structure",
    }
}

pub open spec fn interpolation_text(style: Interpolation) -> Seq<char> {
    match style {
        Interpolation::DoubleBrace => "{{name}}"@,
        Interpolation::SingleBrace => "{name}"@,
        Interpolation::Positional => "{0}"@,
    }
}

pub fn interpolation(style: Interpolation) -> (r: &'static str)
    ensures
        r@ == interpolation_text(style),
{
    match style {
        Interpolation::DoubleBrace => "{{name}}",
        Interpolation::SingleBrace => "{name}",
        Interpolation::Positional => "{0}",
    }
}

pub open spec fn key_shape_text(shape: KeyShape) -> Seq<char> {
    match shape {
        KeyShape::Text => "a string"@,
        KeyShape::Object => "an object"@,
        KeyShape::Other => "neither a string nor an object"@,
    }
}

pub fn key_shape(shape: KeyShape) -> (r: &'static str)
    ensures
        r@ == key_shape_text(shape),
{
    match shape {
        KeyShape::Text => "a string",
        KeyShape::Object => "an object",
        KeyShape::Other => "neither a string nor an object",
    }
}

/// The kebab spelling the report uses, so a terminal line and a JSON field
/// name the same thing.
pub open spec fn construct_text(construct: Construct) -> Seq<char> {
    match construct {
        Construct::IcuArgument => "icu-argument"@,
        Construct::Fluent => "fluent"@,
        Construct::Printf => "printf"@,
        Construct::TemplateLiteral => "template-literal"@,
        Construct::Nesting => "nesting"@,
    }
}

pub fn construct(c: Construct) -> (r: &'static str)
    ensures
        r@ == construct_text(c),
{
    match c {
        Construct::IcuArgument => "icu-argument",
        Construct::Fluent => "fluent",
        Construct::Printf => "printf",
        Construct::TemplateLiteral => "template-literal",
        Construct::Nesting => "nesting",
    }
}

pub open spec fn plural_text(count: nat, one: Seq<char>, many: Seq<char>) -> Seq<char> {
    decimal(count) + " "@ + if count == 1 {
        one
    } else {
        many
    }
}

/// A count with its noun: `1 finding`, `3 findings`.
pub fn plural(count: usize, one: &str, many: &str) -> (r: String)
    ensures
        r@ == plural_text(count as nat, one@, many@),
{
    let mut out = crate::text::decimal_text(count as u64);
    out.append(" ");
    if count == 1 {
        out.append(one);
    } else {
        out.append(many);
    }
    out
}

/// One finding as a line: tokens, counts, styles, shapes and offsets only.
/// There is no branch here that can print a translated string, because
/// `Evidence` has no variant that carries one.
pub open spec fn described_finding(f: Finding) -> Seq<char> {
    let head = f.file@ + ": "@ + kind_text(f.kind) + " "@ + f.key@;
    match f.evidence {
        None => head,
        Some(Evidence::Tokens { source, target }) => head + " ("@ + joined_with(texts(source@), ", "@) + " became "@
            + joined_with(texts(target@), ", "@) + ")"@,
        Some(Evidence::Counts { source, target }) => head + " ("@ + plural_text(source as nat, "placeholder"@, "placeholders"@)
            + " became "@ + decimal(target as nat) + ")"@,
        Some(Evidence::Styles { source, target }) => head + " ("@ + interpolation_text(source) + " became "@
            + interpolation_text(target) + ")"@,
        Some(Evidence::Shapes { source, target }) => head + " ("@ + key_shape_text(target) + " here, "@
            + key_shape_text(source) + " in the source)"@,
        Some(Evidence::Occurrences { occurrences }) => head + " (defined "@ + decimal(occurrences as nat) + "×)"@,
        Some(Evidence::Foreign { construct, offset }) => head + " ("@ + construct_text(construct) + " at offset "@
            + decimal(offset as nat) + ")"@,
    }
}

pub fn describe(finding: &Finding) -> (r: String)
    ensures
        r@ == described_finding(*finding),
{
    let mut head = finding.file.clone();
    head.append(": ");
    head.append(kind(finding.kind));
    head.append(" ");
    head.append(finding.key.as_str());
    match &finding.evidence {
        None => head,
        Some(Evidence::Tokens { source, target }) => {
            head.append(" (");
            let s = crate::text::join(source, ", ");
            head.append(s.as_str());
            head.append(" became ");
            let t = crate::text::join(target, ", ");
            head.append(t.as_str());
            head.append(")");
            head
        },
        Some(Evidence::Counts { source, target }) => {
            head.append(" (");
            let s = plural(*source, "placeholder", "placeholders");
            head.append(s.as_str());
            head.append(" became ");
            let t = crate::text::decimal_text(*target as u64);
            head.append(t.as_str());
            head.append(")");
            head
        },
        Some(Evidence::Styles { source, target }) => {
            head.append(" (");
            head.append(interpolation(*source));
            head.append(" became ");
            head.append(interpolation(*target));
            head.append(")");
            head
        },
        Some(Evidence::Shapes { source, target }) => {
            head.append(" (");
            head.append(key_shape(*target));
            head.append(" here, ");
            head.append(key_shape(*source));
            head.append(" in the source)");
            head
        },
        Some(Evidence::Occurrences { occurrences }) => {
            head.append(" (defined ");
            let n = crate::text::decimal_text(*occurrences as u64);
            head.append(n.as_str());
            head.append("×)");
            head
        },
        Some(Evidence::Foreign { construct: c, offset }) => {
            head.append(" (");
            head.append(construct(*c));
            head.append(" at offset ");
            let n = crate::text::decimal_text(*offset as u64);
            head.append(n.as_str());
            head.append(")");
            head
        },
    }
}

pub open spec fn evidence_text(report: Report) -> Seq<char> {
    if report.system.evidence@.len() == 0 {
        "as asked for"@
    } else {
        joined_with(report.system.evidence@.map_values(|s: crate::identify::Signal| s.detail@), ", "@)
    }
}

/// What the identification rested on, as the first line says it.
pub fn evidence(report: &Report) -> (r: String)
    ensures
        r@ == evidence_text(*report),
{
    if report.system.evidence.len() == 0 {
        return String::from_str("as asked for");
    }
    let mut details: Vec<String> = Vec::new();
    let mut i: usize = 0;
    while i < report.system.evidence.len()
        invariant
            0 <= i <= report.system.evidence@.len(),
            details@.len() == i,
            texts(details@) == report.system.evidence@.map_values(|s: crate::identify::Signal| s.detail@).subrange(0, i as int),
        decreases report.system.evidence@.len() - i,
    {
        details.push(report.system.evidence[i].detail.clone());
        assert(texts(details@)[i as int] == report.system.evidence@.map_values(|s: crate::identify::Signal| s.detail@)[i as int]);
        assert(texts(details@) =~= report.system.evidence@.map_values(|s: crate::identify::Signal| s.detail@).subrange(0, i + 1));
        i += 1;
    }
    assert(report.system.evidence@.map_values(|s: crate::identify::Signal| s.detail@).subrange(0, report.system.evidence@.len() as int) =~= report.system.evidence@.map_values(|s: crate::identify::Signal| s.detail@));
    crate::text::join(&details, ", ")
}

pub open spec fn closing_text(report: Report) -> Seq<char> {
    match report.status {
        Status::NoFiles => "no catalogues found"@,
        Status::Clean => "clean — "@ + plural_text(report.summary.files as nat, "catalogue"@, "catalogues"@),
        Status::Findings => plural_text(report.summary.findings as nat, "finding"@, "findings"@) + " across "@
            + plural_text(report.summary.files as nat, "catalogue"@, "catalogues"@),
    }
}

pub open spec fn opening_text(report: Report) -> Seq<char> {
    id_name(report.system.library)@ + match report.system.version {
        Some(v) => " "@ + v@,
        None => seq![],
    } + " — "@ + evidence_text(report)
}

/// The human half, line by line: which library the findings were judged
/// against and on what evidence, each diagnostic, each finding, and a
/// closing count. Every line restates something already in the report.
pub open spec fn spec_lines(report: Report) -> Seq<Seq<char>> {
    seq![opening_text(report)] + report.diagnostics@.map_values(
        |d: crate::scan::Diagnostic| d.file@ + ": "@ + d.message@,
    ) + report.findings@.map_values(|f: Finding| described_finding(f)) + seq![closing_text(report)]
}

pub fn lines(report: &Report) -> (r: Vec<String>)
    ensures
        texts(r@) == spec_lines(*report),
{
    let mut out: Vec<String> = Vec::new();
    let mut first = String::from_str(report.system.library.as_str());
    if let Some(version) = &report.system.version {
        first.append(" ");
        first.append(version.as_str());
    }
    assert(first@ =~= id_name(report.system.library)@ + match report.system.version {
        Some(v) => " "@ + v@,
        None => Seq::<char>::empty(),
    });
    first.append(" — ");
    let e = evidence(report);
    first.append(e.as_str());
    assert(first@ =~= opening_text(*report));
    out.push(first);
    assert(texts(out@) =~= seq![opening_text(*report)]);
    let ghost a = texts(out@);
    let mut i: usize = 0;
    while i < report.diagnostics.len()
        invariant
            0 <= i <= report.diagnostics@.len(),
            texts(out@) == a + report.diagnostics@.subrange(0, i as int).map_values(
                |d: crate::scan::Diagnostic| d.file@ + ": "@ + d.message@,
            ),
        decreases report.diagnostics@.len() - i,
    {
        let ghost before = texts(out@);
        let mut line = report.diagnostics[i].file.clone();
        line.append(": ");
        line.append(report.diagnostics[i].message.as_str());
        out.push(line);
        assert(report.diagnostics@.subrange(0, i + 1).map_values(|d: crate::scan::Diagnostic| d.file@ + ": "@ + d.message@) =~= report.diagnostics@.subrange(0, i as int).map_values(|d: crate::scan::Diagnostic| d.file@ + ": "@ + d.message@).push(report.diagnostics@[i as int].file@ + ": "@ + report.diagnostics@[i as int].message@));
        assert(texts(out@) =~= before.push(report.diagnostics@[i as int].file@ + ": "@ + report.diagnostics@[i as int].message@));
        i += 1;
    }
    assert(report.diagnostics@.subrange(0, report.diagnostics@.len() as int) =~= report.diagnostics@);
    let ghost b = texts(out@);
    let mut k: usize = 0;
    while k < report.findings.len()
        invariant
            0 <= k <= report.findings@.len(),
            texts(out@) == b + report.findings@.subrange(0, k as int).map_values(|f: Finding| described_finding(f)),
        decreases report.findings@.len() - k,
    {
        let ghost before = texts(out@);
        out.push(describe(&report.findings[k]));
        assert(report.findings@.subrange(0, k + 1).map_values(|f: Finding| described_finding(f)) =~= report.findings@.subrange(0, k as int).map_values(|f: Finding| described_finding(f)).push(described_finding(report.findings@[k as int])));
        assert(texts(out@) =~= before.push(described_finding(report.findings@[k as int])));
        k += 1;
    }
    assert(report.findings@.subrange(0, report.findings@.len() as int) =~= report.findings@);
    let last = match report.status {
        Status::NoFiles => String::from_str("no catalogues found"),
        Status::Clean => {
            let mut l = String::from_str("clean — ");
            let p = plural(report.summary.files, "catalogue", "catalogues");
            l.append(p.as_str());
            l
        },
        Status::Findings => {
            let mut l = plural(report.summary.findings, "finding", "findings");
            l.append(" across ");
            let p = plural(report.summary.files, "catalogue", "catalogues");
            l.append(p.as_str());
            l
        },
    };
    let ghost c = texts(out@);
    out.push(last);
    assert(texts(out@) =~= c.push(closing_text(*report)));
    assert(texts(out@) =~= spec_lines(*report));
    out
}

} // verus!

verus! {

/// Every input the command line names so far is a name, not a flag.
pub open spec fn real_inputs(inputs: Seq<Seq<char>>) -> bool {
    forall|k: int| 0 <= k < inputs.len() ==> !starts_dash(#[trigger] inputs[k])
}

proof fn lemma_parse_keeps_real_inputs(args: Seq<Seq<char>>, i: int, asked: Asked)
    requires
        real_inputs(asked.inputs),
    ensures
        parse_from(args, i, asked) matches Ok(a) ==> a.inputs.len() > 0 && real_inputs(a.inputs),
    decreases args.len() - i,
{
    if 0 <= i < args.len() {
        let arg = args[i];
        if starts_dash(arg) && !is_flag(arg) {
        } else if arg == "--keys-are-source"@ {
            lemma_parse_keeps_real_inputs(args, i + 1, Asked { keys_are_source: true, ..asked });
        } else if arg == "--strict"@ {
            lemma_parse_keeps_real_inputs(args, i + 1, Asked { strict: true, ..asked });
        } else if arg == "--system"@ {
            if i + 1 < args.len() {
                if let Some(id) = named(args[i + 1]) {
                    lemma_parse_keeps_real_inputs(args, i + 2, Asked { requested: Requested::Named(id), ..asked });
                }
            }
        } else if arg == "--source"@ {
            if i + 1 < args.len() {
                lemma_parse_keeps_real_inputs(args, i + 2, Asked { source: Some(args[i + 1]), ..asked });
            }
        } else if arg == "--fail-on"@ {
            if i + 1 < args.len() {
                if let Ok(f) = fail_on_of(args[i + 1]) {
                    lemma_parse_keeps_real_inputs(args, i + 2, Asked { fail_on: f, ..asked });
                }
            }
        } else {
            // Not a flag, since each flag was matched above; so, by the
            // first test, not a dash either.
            assert(!is_flag(arg)) by {
                if is_flag(arg) {
                    let k = choose|k: int| 0 <= k < spec_flags().len() && spec_flags()[k]@ == arg;
                    reveal_strlit("--system");
                    reveal_strlit("--source");
                    reveal_strlit("--keys-are-source");
                    reveal_strlit("--fail-on");
                    reveal_strlit("--strict");
                    assert(spec_flags()[k]@ == "--system"@ || spec_flags()[k]@ == "--source"@
                        || spec_flags()[k]@ == "--keys-are-source"@ || spec_flags()[k]@ == "--fail-on"@
                        || spec_flags()[k]@ == "--strict"@);
                }
            }
            let next = Asked { inputs: asked.inputs.push(arg), ..asked };
            assert(real_inputs(next.inputs)) by {
                assert forall|k: int| 0 <= k < next.inputs.len() implies !starts_dash(#[trigger] next.inputs[k]) by {
                    if k < asked.inputs.len() {
                        assert(next.inputs[k] == asked.inputs[k]);
                    }
                }
            }
            lemma_parse_keeps_real_inputs(args, i + 1, next);
        }
    }
}

/// Strict parsing, never a silent default: a command line that is
/// accepted names at least one directory or file, and nothing it took as
/// one begins with a dash — a mistyped flag is refused, never read as a
/// path and never ignored.
pub proof fn law_an_accepted_command_line_names_real_inputs(args: Seq<Seq<char>>)
    ensures
        parse_from(args, 0, nothing_asked()) matches Ok(a) ==> a.inputs.len() > 0 && real_inputs(a.inputs),
{
    lemma_parse_keeps_real_inputs(args, 0, nothing_asked());
}

} // verus!

verus! {

proof fn lemma_paths_only(args: Seq<Seq<char>>, i: int, asked: Asked)
    requires
        0 <= i <= args.len(),
        forall|k: int| 0 <= k < args.len() ==> !starts_dash(#[trigger] args[k]),
    ensures
        parse_from(args, i, asked) == if asked.inputs.len() + (args.len() - i) == 0 {
            Err::<Asked, Seq<char>>("name the directory holding the catalogues. Try --help."@)
        } else {
            Ok::<Asked, Seq<char>>(Asked { inputs: asked.inputs + args.subrange(i, args.len() as int), ..asked })
        },
    decreases args.len() - i,
{
    reveal_strlit("--keys-are-source");
    reveal_strlit("--strict");
    reveal_strlit("--system");
    reveal_strlit("--source");
    reveal_strlit("--fail-on");
    if i < args.len() {
        let arg = args[i];
        assert(!starts_dash(arg));
        assert(arg != "--keys-are-source"@ && arg != "--strict"@ && arg != "--system"@ && arg != "--source"@ && arg
            != "--fail-on"@) by {
            assert("--keys-are-source"@[0] == '-');
            assert("--strict"@[0] == '-');
            assert("--system"@[0] == '-');
            assert("--source"@[0] == '-');
            assert("--fail-on"@[0] == '-');
        }
        let next = Asked { inputs: asked.inputs.push(arg), ..asked };
        lemma_paths_only(args, i + 1, next);
        assert(asked.inputs + args.subrange(i, args.len() as int) =~= next.inputs + args.subrange(i + 1, args.len() as int));
    } else {
        assert(asked.inputs + args.subrange(i, args.len() as int) =~= asked.inputs);
    }
}

/// What a command line means, in the cases that need no flag to say: a
/// line of paths asks for exactly those paths with every default, and an
/// empty one is refused, since there is no working-directory default. A
/// token that begins with a dash where a flag could stand, and is not one
/// of the flags, is refused by its own name rather than read as a path or
/// ignored; and a flag that takes a value is refused when none follows.
pub proof fn law_what_a_command_line_asks_for(args: Seq<Seq<char>>, i: int, asked: Asked)
    ensures
        (forall|k: int| 0 <= k < args.len() ==> !starts_dash(#[trigger] args[k])) ==> parse_from(args, 0, nothing_asked())
            == if args.len() == 0 {
            Err::<Asked, Seq<char>>("name the directory holding the catalogues. Try --help."@)
        } else {
            Ok::<Asked, Seq<char>>(Asked { inputs: args, ..nothing_asked() })
        },
        0 <= i < args.len() && starts_dash(args[i]) && !is_flag(args[i]) ==> parse_from(args, i, asked) == Err::<
            Asked,
            Seq<char>,
        >(args[i] + " is not an option. Try --help."@),
        i == args.len() - 1 && i >= 0 && (args[i] == "--system"@ || args[i] == "--source"@ || args[i] == "--fail-on"@)
            ==> parse_from(args, i, asked) is Err,
{
    if forall|k: int| 0 <= k < args.len() ==> !starts_dash(#[trigger] args[k]) {
        lemma_paths_only(args, 0, nothing_asked());
        assert(Seq::<Seq<char>>::empty() + args.subrange(0, args.len() as int) =~= args);
    }
    if i == args.len() - 1 && i >= 0 && (args[i] == "--system"@ || args[i] == "--source"@ || args[i] == "--fail-on"@) {
        reveal_strlit("--keys-are-source");
        reveal_strlit("--strict");
        reveal_strlit("--system");
        reveal_strlit("--source");
        reveal_strlit("--fail-on");
        assert(spec_flags()[0]@ == "--system"@);
        assert(spec_flags()[1]@ == "--source"@);
        assert(spec_flags()[3]@ == "--fail-on"@);
        assert(is_flag(args[i]));
        assert("--system"@[3] != "--strict"@[3]);
        assert("--source"@[3] != "--strict"@[3]);
        assert("--source"@[3] != "--system"@[3]);
        assert("--fail-on"@[2] != "--system"@[2]);
        assert("--fail-on"@[2] != "--source"@[2]);
        assert("--fail-on"@.len() != "--strict"@.len());
        assert("--fail-on"@.len() != "--keys-are-source"@.len());
        assert("--system"@.len() != "--keys-are-source"@.len());
        assert("--source"@.len() != "--keys-are-source"@.len());
        assert(args[i] != "--keys-are-source"@ && args[i] != "--strict"@);
    }
}

} // verus!

verus! {

/// A flag that reads the token after it as its value.
pub open spec fn takes_value(arg: Seq<char>) -> bool {
    arg == "--system"@ || arg == "--source"@ || arg == "--fail-on"@
}

/// `args[i]` is the value of the flag before it, so it is read as neither
/// a flag nor a path, whatever it holds.
pub open spec fn is_value(args: Seq<Seq<char>>, i: int) -> bool
    decreases i,
{
    if i <= 0 || i > args.len() {
        false
    } else {
        takes_value(args[i - 1]) && !is_value(args, i - 1)
    }
}

/// `args[i]` names a directory or a file.
pub open spec fn is_path(args: Seq<Seq<char>>, i: int) -> bool {
    0 <= i < args.len() && !is_value(args, i) && !starts_dash(args[i])
}

/// `args[i]` is the flag `flag`, standing where a flag can stand.
pub open spec fn flag_at(args: Seq<Seq<char>>, i: int, flag: Seq<char>) -> bool {
    0 <= i < args.len() && !is_value(args, i) && args[i] == flag
}

/// `args[i]` is acceptable where it stands: a value, a path, or one of the
/// flags with a value after it where it needs one, and a value that
/// `--system` and `--fail-on` know.
pub open spec fn token_fits(args: Seq<Seq<char>>, i: int) -> bool {
    is_value(args, i) || !starts_dash(args[i]) || (is_flag(args[i]) && (takes_value(args[i]) ==> i + 1 < args.len())
        && (args[i] == "--system"@ ==> named(args[i + 1]) is Some) && (args[i] == "--fail-on"@ ==> fail_on_of(
        args[i + 1],
    ) is Ok))
}

/// The paths of `args[i..]`, in order.
pub open spec fn paths_from(args: Seq<Seq<char>>, i: int) -> Seq<Seq<char>>
    decreases args.len() - i,
{
    if i < 0 || i >= args.len() {
        seq![]
    } else if is_path(args, i) {
        seq![args[i]] + paths_from(args, i + 1)
    } else {
        paths_from(args, i + 1)
    }
}

proof fn lemma_flag_words(arg: Seq<char>)
    ensures
        is_flag(arg) <==> (arg == "--system"@ || arg == "--source"@ || arg == "--keys-are-source"@ || arg
            == "--fail-on"@ || arg == "--strict"@),
        arg == "--system"@ || arg == "--source"@ || arg == "--keys-are-source"@ || arg == "--fail-on"@ || arg
            == "--strict"@ ==> starts_dash(arg),
        arg == "--keys-are-source"@ || arg == "--strict"@ ==> !takes_value(arg),
        arg == "--system"@ ==> arg != "--source"@ && arg != "--fail-on"@,
        arg == "--source"@ ==> arg != "--fail-on"@,
        "--keys-are-source"@ != "--strict"@,
{
    reveal_strlit("--system");
    reveal_strlit("--source");
    reveal_strlit("--keys-are-source");
    reveal_strlit("--fail-on");
    reveal_strlit("--strict");
    assert(spec_flags()[0]@ == "--system"@);
    assert(spec_flags()[1]@ == "--source"@);
    assert(spec_flags()[2]@ == "--keys-are-source"@);
    assert(spec_flags()[3]@ == "--fail-on"@);
    assert(spec_flags()[4]@ == "--strict"@);
    if is_flag(arg) {
        let k = choose|k: int| 0 <= k < spec_flags().len() && spec_flags()[k]@ == arg;
        assert(k == 0 || k == 1 || k == 2 || k == 3 || k == 4);
    }
    assert("--system"@[3] != "--strict"@[3]);
    assert("--source"@[3] != "--strict"@[3]);
    assert("--source"@[3] != "--system"@[3]);
    assert("--fail-on"@[2] != "--system"@[2]);
    assert("--fail-on"@[2] != "--source"@[2]);
    assert("--fail-on"@.len() != "--keys-are-source"@.len());
    assert("--system"@.len() != "--keys-are-source"@.len());
    assert("--source"@.len() != "--keys-are-source"@.len());
    assert("--fail-on"@.len() != "--strict"@.len());
    assert("--keys-are-source"@.len() != "--strict"@.len());
}

/// Every token of `args[i..]` is acceptable where it stands.
pub open spec fn all_fit(args: Seq<Seq<char>>, i: int) -> bool {
    forall|k: int| i <= k < args.len() ==> #[trigger] token_fits(args, k)
}

/// The flag `flag` stands somewhere in `args[i..]` where a flag can stand.
pub open spec fn has_flag(args: Seq<Seq<char>>, i: int, flag: Seq<char>) -> bool {
    exists|k: int| i <= k < args.len() && #[trigger] flag_at(args, k, flag)
}

/// The value given to the last `flag` of `args[i..]`, where one is given.
pub open spec fn last_value(args: Seq<Seq<char>>, i: int, flag: Seq<char>) -> Option<Seq<char>>
    decreases args.len() - i,
{
    if i < 0 || i >= args.len() {
        None
    } else {
        match last_value(args, i + 1, flag) {
            Some(v) => Some(v),
            None => if flag_at(args, i, flag) && i + 1 < args.len() {
                Some(args[i + 1])
            } else {
                None
            },
        }
    }
}

proof fn lemma_last_value_step(args: Seq<Seq<char>>, i: int, j: int, f: Seq<char>)
    requires
        0 <= i < j <= args.len(),
        j == i + 1 || (j == i + 2 && is_value(args, i + 1)),
    ensures
        last_value(args, i, f) == match last_value(args, j, f) {
            Some(v) => Some(v),
            None => if flag_at(args, i, f) && i + 1 < args.len() {
                Some(args[i + 1])
            } else {
                None
            },
        },
{
    if j == i + 2 {
        assert(!flag_at(args, i + 1, f));
        assert(last_value(args, i + 1, f) == last_value(args, j, f));
    }
}

proof fn lemma_has_flag_step(args: Seq<Seq<char>>, i: int, j: int, f: Seq<char>)
    requires
        0 <= i < j <= args.len(),
        j == i + 1 || (j == i + 2 && is_value(args, i + 1)),
    ensures
        has_flag(args, i, f) == (flag_at(args, i, f) || has_flag(args, j, f)),
{
    if has_flag(args, i, f) {
        let k = choose|k: int| i <= k < args.len() && #[trigger] flag_at(args, k, f);
        if k != i {
            assert(k != i + 1 || j == i + 1);
            assert(flag_at(args, k, f));
        }
    }
    if has_flag(args, j, f) {
        let k = choose|k: int| j <= k < args.len() && #[trigger] flag_at(args, k, f);
        assert(flag_at(args, k, f));
    }
    if flag_at(args, i, f) {
        assert(i <= i < args.len() && flag_at(args, i, f));
    }
}

proof fn lemma_accepted_from(args: Seq<Seq<char>>, i: int, asked: Asked)
    requires
        0 <= i <= args.len(),
        !is_value(args, i),
    ensures
        (parse_from(args, i, asked) is Ok) <==> (all_fit(args, i) && asked.inputs.len() + paths_from(args, i).len() > 0),
        parse_from(args, i, asked) matches Ok(a) ==> a.inputs == asked.inputs + paths_from(args, i)
            && a.keys_are_source == (asked.keys_are_source || has_flag(args, i, "--keys-are-source"@))
            && a.strict == (asked.strict || has_flag(args, i, "--strict"@)) && a.source == match last_value(
            args,
            i,
            "--source"@,
        ) {
            Some(v) => Some(v),
            None => asked.source,
        } && a.requested == match last_value(args, i, "--system"@) {
            Some(v) => Requested::Named(named(v)->Some_0),
            None => asked.requested,
        } && a.fail_on == match last_value(args, i, "--fail-on"@) {
            Some(v) => fail_on_of(v)->Ok_0,
            None => asked.fail_on,
        },
    decreases args.len() - i,
{
    if i == args.len() {
        assert(paths_from(args, i) =~= Seq::<Seq<char>>::empty());
        assert(asked.inputs + paths_from(args, i) =~= asked.inputs);
        return;
    }
    let arg = args[i];
    lemma_flag_words(arg);
    assert(is_value(args, i + 1) == takes_value(arg));
    if starts_dash(arg) && !is_flag(arg) {
        assert(!token_fits(args, i));
        return;
    }
    let j: int = if takes_value(arg) { i + 2 } else { i + 1 };
    if takes_value(arg) && i + 1 >= args.len() {
        assert(!token_fits(args, i));
        return;
    }
    if arg == "--system"@ && named(args[i + 1]) is None {
        assert(!token_fits(args, i));
        return;
    }
    if arg == "--fail-on"@ && fail_on_of(args[i + 1]) is Err {
        assert(!token_fits(args, i));
        return;
    }
    // From here on the token fits, and parsing goes on at `j`.
    assert(token_fits(args, i));
    assert(j <= args.len());
    assert(!is_value(args, j)) by {
        if takes_value(arg) {
            assert(is_value(args, i + 1));
        }
    }
    let next = if arg == "--keys-are-source"@ {
        Asked { keys_are_source: true, ..asked }
    } else if arg == "--strict"@ {
        Asked { strict: true, ..asked }
    } else if arg == "--system"@ {
        Asked { requested: Requested::Named(named(args[i + 1])->Some_0), ..asked }
    } else if arg == "--source"@ {
        Asked { source: Some(args[i + 1]), ..asked }
    } else if arg == "--fail-on"@ {
        Asked { fail_on: fail_on_of(args[i + 1])->Ok_0, ..asked }
    } else {
        Asked { inputs: asked.inputs.push(arg), ..asked }
    };
    assert(parse_from(args, i, asked) == parse_from(args, j, next));
    lemma_accepted_from(args, j, next);
    // What lies between `i` and `j` besides `args[i]`: at most a value.
    if takes_value(arg) {
        assert(is_value(args, i + 1));
        assert(token_fits(args, i + 1));
        assert(!is_path(args, i + 1));
        assert(paths_from(args, i + 1) == paths_from(args, j));
    }
    assert(all_fit(args, i) == all_fit(args, j)) by {
        if all_fit(args, j) {
            assert forall|k: int| i <= k < args.len() implies #[trigger] token_fits(args, k) by {
                if k >= j {
                    assert(token_fits(args, k));
                }
            }
        }
    }
    lemma_has_flag_step(args, i, j, "--keys-are-source"@);
    lemma_has_flag_step(args, i, j, "--strict"@);
    lemma_last_value_step(args, i, j, "--source"@);
    lemma_last_value_step(args, i, j, "--system"@);
    lemma_last_value_step(args, i, j, "--fail-on"@);
    if is_path(args, i) {
        assert(next.inputs + paths_from(args, j) =~= asked.inputs + paths_from(args, i));
    } else {
        assert(paths_from(args, i) == paths_from(args, i + 1));
    }
}

/// The command lines that are accepted, said token by token rather than
/// by walking them: reading each flag that takes a value as owning the
/// token after it, a line is accepted exactly when every other token that
/// begins with a dash is one of the flags, no flag that takes a value is
/// left without one, `--system` names a library this reads and
/// `--fail-on` a threshold it knows, and at least one token is a path.
/// What it asks for is then those paths, in order, with
/// `--keys-are-source` and `--strict` on exactly where they are given,
/// and the value of the last `--source`, `--system` and `--fail-on` in
/// place of each default.
pub proof fn law_the_command_lines_accepted(args: Seq<Seq<char>>)
    ensures
        (parse_from(args, 0, nothing_asked()) is Ok) <==> (all_fit(args, 0) && paths_from(args, 0).len() > 0),
        parse_from(args, 0, nothing_asked()) matches Ok(a) ==> a.inputs == paths_from(args, 0)
            && a.keys_are_source == has_flag(args, 0, "--keys-are-source"@) && a.strict == has_flag(args, 0, "--strict"@)
            && a.source == last_value(args, 0, "--source"@) && a.requested == match last_value(args, 0, "--system"@) {
            Some(v) => Requested::Named(named(v)->Some_0),
            None => Requested::Detect,
        } && a.fail_on == match last_value(args, 0, "--fail-on"@) {
            Some(v) => fail_on_of(v)->Ok_0,
            None => FailOn::Findings,
        },
{
    lemma_accepted_from(args, 0, nothing_asked());
    assert(nothing_asked().inputs + paths_from(args, 0) =~= paths_from(args, 0));
}

} // verus!
