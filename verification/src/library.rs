//! What each i18n library **is**, as data.
//!
//! Identification decides which row applies; everything downstream — the
//! message grammar, the plural model, which keys are metadata, how the
//! files on disk are laid out and where a locale's name lives — is read
//! off that row. Nothing downstream guesses.
//!
//! Adding a library is meant to be a row here. A genuinely new syntax
//! needs one new `Mark` and its predicate in `message.rs`; packages,
//! config files, call sites, layouts, grammar, plurals and metadata are
//! all data.

use vstd::prelude::*;

use crate::text::{same, starts_with, utf8};

verus! {

#[derive(Debug, Clone, Copy, PartialEq, Eq, Structural, Hash, PartialOrd, Ord)]
pub enum Id {
    I18next,
    NextIntl,
    VscodeL10n,
    FlutterArb,
}

/// Where a manifest dependency is declared.
#[derive(Debug, Clone, Copy, PartialEq, Eq, Structural)]
pub enum Manifest {
    Npm,
    Pubspec,
}

#[derive(Debug, Clone, Copy)]
pub struct Package {
    pub name: &'static str,
    pub manifest: Manifest,
    /// A major below which this library's model is **known** to be
    /// different, so reading the catalogues as this library would be
    /// wrong rather than merely unverified. Only a known break belongs
    /// here; an unfamiliar major is read and reported.
    pub breaking_below: Option<u64>,
}

/// What a config in the JavaScript ecosystem is written in.
#[derive(Debug, Clone, Copy, PartialEq, Eq, Structural)]
pub enum ConfigLanguage {
    /// `js`, `cjs`, `mjs`, `ts`, `mts`, `cts`, `json`.
    Script,
    /// `yaml`, `yml`.
    Yaml,
}

/// A config file a library writes: the name without its extension, and
/// the extensions it is actually written in.
///
/// The extensions are the point: matching a stem alone made `l10n.json`
/// — somebody's translation bundle — vote for Flutter, whose config is
/// `l10n.yaml` and nothing else.
#[derive(Debug, Clone, Copy)]
pub struct Config {
    pub stem: &'static str,
    pub language: ConfigLanguage,
}

/// How the files of a set are named and where they sit.
#[derive(Debug, Clone, Copy)]
pub enum Shape {
    /// The locale is whatever the names in the directory do **not**
    /// share: `en.json`, `app_en.arb`, `messages.es.json`.
    Shared { extension: &'static str },
    /// A prefix the library fixes, so one name is readable alone, which
    /// lets the set span two directories.
    Fixed { prefix: &'static str, extension: &'static str },
    /// `<locale>/<namespace>.json`.
    Namespaced { extension: &'static str },
}

#[derive(Debug, Clone, Copy)]
pub struct Layout {
    pub shape: Shape,
    /// The directory names this library writes; `None` means any.
    pub directories: Option<Directories>,
    /// The key *is* the English string, as in `bundle.l10n.json`. A
    /// property of the layout, not the library.
    pub keys_are_source: bool,
}

/// Directory names a library writes its catalogues into.
#[derive(Debug, Clone, Copy, PartialEq, Eq, Structural)]
pub enum Directories {
    /// `locales`, `translations`, `lang`.
    Locales,
    /// `messages`.
    Messages,
}

/// How placeholders are written. Supplied, never inferred.
#[derive(Debug, Clone, Copy, PartialEq, Eq, Structural)]
pub enum Interpolation {
    /// `{{name}}`
    DoubleBrace,
    /// `{name}`
    SingleBrace,
    /// `{0}`
    Positional,
}

#[derive(Debug, Clone, Copy, PartialEq, Eq, Structural)]
pub struct Grammar {
    pub interpolation: Interpolation,
    /// `{count, plural, ...}` is native here.
    pub icu: bool,
    /// `$t(other.key)` is a key reference here.
    pub nesting: bool,
    /// `{{ name }}` and `{{name}}` are the same variable.
    pub trims: bool,
}

#[derive(Debug, Clone, Copy, PartialEq, Eq, Structural)]
pub enum Plurals {
    /// `key_one`, `key_other` — separate keys sharing a base.
    KeySuffix,
    /// Inside the message.
    Icu,
    Absent,
}

#[derive(Debug, Clone, Copy, PartialEq, Eq, Structural)]
pub enum Metadata {
    /// `@@locale` and friends, which no library treats as a message.
    DoubleAt,
    /// ARB: `@@locale` **and** a `@key` object beside every `key`.
    Arb,
}

/// How much one syntactic mark is worth as evidence.
#[derive(Debug, Clone, Copy, PartialEq, Eq, Structural)]
pub enum Strength {
    /// Identifies on its own. Reserved for syntax no other library
    /// writes.
    Decisive,
    /// Counts as this library's content evidence.
    Strong,
    /// Consistent with the library but too common to vote.
    Weak,
}

/// A syntactic mark the content scan looks for.
#[derive(Debug, Clone, Copy, PartialEq, Eq, Structural, Hash, PartialOrd, Ord)]
pub enum Mark {
    /// `{{var}}`
    DoubleBrace,
    /// `{x, plural, ...}`
    IcuArgument,
    /// `{0}`
    Positional,
    /// `{name}`
    SingleBrace,
    /// `$t(key)`
    DollarT,
    /// `key_one` / `key_other` sharing a base.
    PluralKeySuffix,
    /// `@@locale` with `@key` siblings.
    ArbMetadata,
    /// The key is an English sentence rather than an identifier.
    SentenceKeys,
}

/// A shape in catalogue content that points at one library.
#[derive(Debug, Clone, Copy, PartialEq, Eq, Structural)]
pub struct Signature {
    pub mark: Mark,
    pub strength: Strength,
}

/// One row of the table.
#[derive(Debug, Clone, Copy, PartialEq, Eq, Structural)]
pub struct Library {
    pub id: Id,
}

// ---------------------------------------------------------------------
// Names
// ---------------------------------------------------------------------

/// The name a library goes by, in a refusal, in `--system` and in the
/// report.
pub open spec fn id_name(id: Id) -> &'static str {
    match id {
        Id::I18next => "i18next",
        Id::NextIntl => "next-intl",
        Id::VscodeL10n => "vscode-l10n",
        Id::FlutterArb => "flutter-arb",
    }
}

/// Every library, in table order.
pub open spec fn every_id() -> Seq<Id> {
    seq![Id::I18next, Id::NextIntl, Id::VscodeL10n, Id::FlutterArb]
}

/// The name a refusal and the report both call a mark.
pub open spec fn mark_name(mark: Mark) -> &'static str {
    match mark {
        Mark::DoubleBrace => "double-brace",
        Mark::IcuArgument => "icu-argument",
        Mark::Positional => "positional",
        Mark::SingleBrace => "single-brace",
        Mark::DollarT => "dollar-t",
        Mark::PluralKeySuffix => "plural-key-suffix",
        Mark::ArbMetadata => "arb-metadata",
        Mark::SentenceKeys => "sentence-keys",
    }
}

/// No two libraries share a name, which is what makes a name an answer.
pub proof fn lemma_names_are_distinct(a: Id, b: Id)
    ensures
        id_name(a)@ == id_name(b)@ <==> a == b,
{
    reveal_strlit("i18next");
    reveal_strlit("next-intl");
    reveal_strlit("vscode-l10n");
    reveal_strlit("flutter-arb");
    if a != b {
        match (a, b) {
            (Id::I18next, _) => assert(id_name(a)@[0] != id_name(b)@[0]),
            (Id::NextIntl, _) => assert(id_name(a)@[0] != id_name(b)@[0]),
            (Id::VscodeL10n, _) => assert(id_name(a)@[0] != id_name(b)@[0]),
            (Id::FlutterArb, _) => assert(id_name(a)@[0] != id_name(b)@[0]),
        }
    }
}

/// No two marks share a name: a signal that names a mark names exactly
/// one, which is what lets a content signal be read back as its mark.
pub proof fn law_every_mark_has_its_own_name(a: Mark, b: Mark)
    ensures
        mark_name(a)@ == mark_name(b)@ <==> a == b,
{
    reveal_strlit("double-brace");
    reveal_strlit("icu-argument");
    reveal_strlit("positional");
    reveal_strlit("single-brace");
    reveal_strlit("dollar-t");
    reveal_strlit("plural-key-suffix");
    reveal_strlit("arb-metadata");
    reveal_strlit("sentence-keys");
    if a != b {
        if mark_name(a)@[0] == mark_name(b)@[0] {
            if mark_name(a)@[1] == mark_name(b)@[1] {
                // `double-brace` and `dollar-t` share two.
                assert(mark_name(a)@[2] != mark_name(b)@[2]);
            }
        }
    }
}

impl Id {
    pub fn as_str(self) -> (r: &'static str)
        ensures
            r == id_name(self),
    {
        match self {
            Id::I18next => "i18next",
            Id::NextIntl => "next-intl",
            Id::VscodeL10n => "vscode-l10n",
            Id::FlutterArb => "flutter-arb",
        }
    }

    /// The library a name names, if any.
    pub fn parse(text: &str) -> (r: Option<Id>)
        ensures
            r matches Some(id) ==> id_name(id)@ == text@,
            r is None <==> forall|id: Id| id_name(id)@ != text@,
    {
        let every = all();
        let mut i: usize = 0;
        while i < every.len()
            invariant
                every@ == every_id().map_values(|id: Id| Library { id }),
                0 <= i <= every@.len(),
                forall|j: int| 0 <= j < i ==> id_name(every_id()[j])@ != text@,
            decreases every@.len() - i,
        {
            let id = every[i].id;
            if same(id.as_str(), text) {
                return Some(id);
            }
            i += 1;
        }
        proof {
            assert forall|id: Id| id_name(id)@ != text@ by {
                match id {
                    Id::I18next => assert(every_id()[0] == id),
                    Id::NextIntl => assert(every_id()[1] == id),
                    Id::VscodeL10n => assert(every_id()[2] == id),
                    Id::FlutterArb => assert(every_id()[3] == id),
                }
            }
        }
        None
    }

    /// The row this id names. Every id has one: the match is what keeps
    /// that true, since a new variant makes it non-exhaustive.
    pub fn library(self) -> (r: Library)
        ensures
            r.id == self,
    {
        Library { id: self }
    }
}

impl Mark {
    /// The name a refusal and the report both call this mark.
    pub fn as_str(self) -> (r: &'static str)
        ensures
            r == mark_name(self),
    {
        match self {
            Mark::DoubleBrace => "double-brace",
            Mark::IcuArgument => "icu-argument",
            Mark::Positional => "positional",
            Mark::SingleBrace => "single-brace",
            Mark::DollarT => "dollar-t",
            Mark::PluralKeySuffix => "plural-key-suffix",
            Mark::ArbMetadata => "arb-metadata",
            Mark::SentenceKeys => "sentence-keys",
        }
    }
}

/// Every library name, for a refusal that has to list them.
pub fn names() -> (r: Vec<&'static str>)
    ensures
        r@ == every_id().map_values(|id: Id| id_name(id)),
{
    let mut r = Vec::new();
    r.push(Id::I18next.as_str());
    r.push(Id::NextIntl.as_str());
    r.push(Id::VscodeL10n.as_str());
    r.push(Id::FlutterArb.as_str());
    assert(r@ =~= every_id().map_values(|id: Id| id_name(id)));
    r
}

/// Every row, in table order.
pub fn all() -> (r: Vec<Library>)
    ensures
        r@ == every_id().map_values(|id: Id| Library { id }),
{
    let mut r = Vec::new();
    r.push(Library { id: Id::I18next });
    r.push(Library { id: Id::NextIntl });
    r.push(Library { id: Id::VscodeL10n });
    r.push(Library { id: Id::FlutterArb });
    assert(r@ =~= every_id().map_values(|id: Id| Library { id }));
    r
}

// ---------------------------------------------------------------------
// The rows
// ---------------------------------------------------------------------

pub open spec fn spec_grammar(id: Id) -> Grammar {
    match id {
        Id::I18next => Grammar {
            interpolation: Interpolation::DoubleBrace,
            icu: false,
            nesting: true,
            trims: true,
        },
        Id::NextIntl => Grammar {
            interpolation: Interpolation::SingleBrace,
            icu: true,
            nesting: false,
            trims: true,
        },
        Id::VscodeL10n => Grammar {
            interpolation: Interpolation::Positional,
            icu: false,
            nesting: false,
            trims: false,
        },
        Id::FlutterArb => Grammar {
            interpolation: Interpolation::SingleBrace,
            icu: true,
            nesting: false,
            trims: true,
        },
    }
}

pub open spec fn spec_plurals(id: Id) -> Plurals {
    match id {
        Id::I18next => Plurals::KeySuffix,
        Id::NextIntl => Plurals::Icu,
        Id::VscodeL10n => Plurals::Absent,
        Id::FlutterArb => Plurals::Icu,
    }
}

pub open spec fn spec_metadata(id: Id) -> Metadata {
    match id {
        Id::FlutterArb => Metadata::Arb,
        _ => Metadata::DoubleAt,
    }
}

pub open spec fn spec_signatures(id: Id) -> Seq<Signature> {
    match id {
        Id::I18next => seq![
            Signature { mark: Mark::DoubleBrace, strength: Strength::Strong },
            Signature { mark: Mark::DollarT, strength: Strength::Strong },
            Signature { mark: Mark::PluralKeySuffix, strength: Strength::Strong },
        ],
        Id::NextIntl => seq![
            Signature { mark: Mark::IcuArgument, strength: Strength::Strong },
            Signature { mark: Mark::SingleBrace, strength: Strength::Weak },
        ],
        Id::VscodeL10n => seq![
            Signature { mark: Mark::Positional, strength: Strength::Weak },
            Signature { mark: Mark::SentenceKeys, strength: Strength::Strong },
        ],
        Id::FlutterArb => seq![
            Signature { mark: Mark::ArbMetadata, strength: Strength::Decisive },
            Signature { mark: Mark::IcuArgument, strength: Strength::Weak },
        ],
    }
}

/// The packages that declare a library, by name and manifest, with the
/// version floor a known break sets.
pub open spec fn spec_packages(id: Id) -> Seq<(&'static str, Manifest, Option<u64>)> {
    match id {
        // v21 and v22 wrote plural keys as `key_plural`; v23 moved to the
        // CLDR categories this reads.
        Id::I18next => seq![
            ("i18next", Manifest::Npm, Some(23u64)),
            ("react-i18next", Manifest::Npm, None),
            ("i18next-vue", Manifest::Npm, None),
        ],
        Id::NextIntl => seq![("next-intl", Manifest::Npm, None)],
        Id::VscodeL10n => seq![("@vscode/l10n", Manifest::Npm, None)],
        Id::FlutterArb => seq![
            ("flutter_localizations", Manifest::Pubspec, None),
            ("intl", Manifest::Pubspec, None),
        ],
    }
}

pub open spec fn spec_configs(id: Id) -> Seq<(&'static str, ConfigLanguage)> {
    match id {
        Id::I18next => seq![
            ("i18next-parser.config", ConfigLanguage::Script),
            ("next-i18next.config", ConfigLanguage::Script),
        ],
        Id::NextIntl => seq![("next-intl.config", ConfigLanguage::Script)],
        Id::VscodeL10n => seq![],
        // `l10n.yaml` and nothing else.
        Id::FlutterArb => seq![("l10n", ConfigLanguage::Yaml)],
    }
}

pub open spec fn spec_calls(id: Id) -> Seq<&'static str> {
    match id {
        // `$t(` is deliberately absent: it appears in Vue templates and
        // plenty of unrelated code, and it is already a content mark
        // where it is trustworthy — inside a catalogue.
        Id::I18next => seq!["useTranslation(", "i18next.t("],
        Id::NextIntl => seq!["useTranslations(", "getTranslations(", "next-intl"],
        Id::VscodeL10n => seq!["vscode.l10n.t(", "l10n.t("],
        Id::FlutterArb => seq!["AppLocalizations.of("],
    }
}

/// The extensions a config language is written in.
pub open spec fn spec_extensions(language: ConfigLanguage) -> Seq<&'static str> {
    match language {
        ConfigLanguage::Script => seq!["js", "cjs", "mjs", "ts", "mts", "cts", "json"],
        ConfigLanguage::Yaml => seq!["yaml", "yml"],
    }
}

/// The directory names a layout votes from.
pub open spec fn spec_directories(directories: Directories) -> Seq<&'static str> {
    match directories {
        Directories::Locales => seq!["locales", "translations", "lang"],
        Directories::Messages => seq!["messages"],
    }
}

impl ConfigLanguage {
    pub fn extensions(self) -> (r: Vec<&'static str>)
        ensures
            r@ == spec_extensions(self),
    {
        let mut r = Vec::new();
        match self {
            ConfigLanguage::Script => {
                r.push("js");
                r.push("cjs");
                r.push("mjs");
                r.push("ts");
                r.push("mts");
                r.push("cts");
                r.push("json");
            },
            ConfigLanguage::Yaml => {
                r.push("yaml");
                r.push("yml");
            },
        }
        assert(r@ =~= spec_extensions(self));
        r
    }
}

impl Directories {
    pub fn names(self) -> (r: Vec<&'static str>)
        ensures
            r@ == spec_directories(self),
    {
        let mut r = Vec::new();
        match self {
            Directories::Locales => {
                r.push("locales");
                r.push("translations");
                r.push("lang");
            },
            Directories::Messages => {
                r.push("messages");
            },
        }
        assert(r@ =~= spec_directories(self));
        r
    }
}

/// Whether `text` is one of `candidates`.
pub fn listed_in(candidates: &Vec<&'static str>, text: &str) -> (r: bool)
    ensures
        r == exists|i: int| 0 <= i < candidates@.len() && candidates@[i]@ == text@,
{
    let mut i: usize = 0;
    while i < candidates.len()
        invariant
            0 <= i <= candidates@.len(),
            forall|j: int| 0 <= j < i ==> candidates@[j]@ != text@,
        decreases candidates@.len() - i,
    {
        if same(candidates[i], text) {
            return true;
        }
        i += 1;
    }
    false
}

impl Config {
    /// Whether a file called `<stem>.<extension>` is this config.
    pub fn matches(&self, stem: &str, extension: &str) -> (r: bool)
        ensures
            r == (self.stem@ == stem@ && exists|i: int|
                0 <= i < spec_extensions(self.language).len() && spec_extensions(
                    self.language,
                )[i]@ == extension@),
    {
        same(self.stem, stem) && listed_in(&self.language.extensions(), extension)
    }
}

impl Layout {
    /// Whether this layout names `directory` among the ones it writes.
    pub fn names_directory(&self, directory: &str) -> (r: bool)
        ensures
            self.directories matches Some(d) ==> r == exists|i: int|
                0 <= i < spec_directories(d).len() && spec_directories(d)[i]@ == directory@,
            self.directories is None ==> !r,
    {
        match self.directories {
            Some(d) => listed_in(&d.names(), directory),
            None => false,
        }
    }
}

/// The first dotted segment of a key.
pub open spec fn head(key: Seq<u8>) -> Seq<u8> {
    if exists|i: int| 0 <= i < key.len() && key[i] == 0x2Eu8 {
        key.take(choose|i: int| 0 <= i < key.len() && key[i] == 0x2Eu8 && forall|j: int|
            0 <= j < i ==> key[j] != 0x2Eu8)
    } else {
        key
    }
}

/// The key is metadata under this metadata rule: its first dotted segment
/// starts with `@@`, or with `@` under ARB.
pub open spec fn is_metadata_key(metadata: Metadata, key: Seq<u8>) -> bool {
    match metadata {
        Metadata::DoubleAt => head(key).len() >= 2 && head(key)[0] == 0x40u8 && head(key)[1]
            == 0x40u8,
        Metadata::Arb => head(key).len() >= 1 && head(key)[0] == 0x40u8,
    }
}

impl Library {
    pub fn grammar(&self) -> (r: Grammar)
        ensures
            r == spec_grammar(self.id),
    {
        match self.id {
            Id::I18next => Grammar {
                interpolation: Interpolation::DoubleBrace,
                icu: false,
                nesting: true,
                trims: true,
            },
            Id::NextIntl => Grammar {
                interpolation: Interpolation::SingleBrace,
                icu: true,
                nesting: false,
                trims: true,
            },
            Id::VscodeL10n => Grammar {
                interpolation: Interpolation::Positional,
                icu: false,
                nesting: false,
                trims: false,
            },
            Id::FlutterArb => Grammar {
                interpolation: Interpolation::SingleBrace,
                icu: true,
                nesting: false,
                trims: true,
            },
        }
    }

    pub fn plurals(&self) -> (r: Plurals)
        ensures
            r == spec_plurals(self.id),
    {
        match self.id {
            Id::I18next => Plurals::KeySuffix,
            Id::NextIntl => Plurals::Icu,
            Id::VscodeL10n => Plurals::Absent,
            Id::FlutterArb => Plurals::Icu,
        }
    }

    pub fn metadata(&self) -> (r: Metadata)
        ensures
            r == spec_metadata(self.id),
    {
        match self.id {
            Id::FlutterArb => Metadata::Arb,
            _ => Metadata::DoubleAt,
        }
    }

    pub fn signatures(&self) -> (r: Vec<Signature>)
        ensures
            r@ == spec_signatures(self.id),
    {
        let mut r = Vec::new();
        match self.id {
            Id::I18next => {
                r.push(Signature { mark: Mark::DoubleBrace, strength: Strength::Strong });
                r.push(Signature { mark: Mark::DollarT, strength: Strength::Strong });
                r.push(Signature { mark: Mark::PluralKeySuffix, strength: Strength::Strong });
            },
            Id::NextIntl => {
                r.push(Signature { mark: Mark::IcuArgument, strength: Strength::Strong });
                // Every library's catalogues carry a `{word}` in prose
                // somewhere. It is consistent with next-intl and proves
                // nothing.
                r.push(Signature { mark: Mark::SingleBrace, strength: Strength::Weak });
            },
            Id::VscodeL10n => {
                r.push(Signature { mark: Mark::Positional, strength: Strength::Weak });
                r.push(Signature { mark: Mark::SentenceKeys, strength: Strength::Strong });
            },
            Id::FlutterArb => {
                // `@@locale` beside `@key` objects is ARB and nothing
                // else.
                r.push(Signature { mark: Mark::ArbMetadata, strength: Strength::Decisive });
                r.push(Signature { mark: Mark::IcuArgument, strength: Strength::Weak });
            },
        }
        assert(r@ =~= spec_signatures(self.id));
        r
    }

    pub fn packages(&self) -> (r: Vec<Package>)
        ensures
            r@.len() == spec_packages(self.id).len(),
            forall|i: int|
                0 <= i < r@.len() ==> (#[trigger] r@[i].name, r@[i].manifest, r@[i].breaking_below)
                    == spec_packages(self.id)[i],
    {
        let mut r = Vec::new();
        match self.id {
            Id::I18next => {
                r.push(Package { name: "i18next", manifest: Manifest::Npm, breaking_below: Some(23) });
                r.push(Package { name: "react-i18next", manifest: Manifest::Npm, breaking_below: None });
                r.push(Package { name: "i18next-vue", manifest: Manifest::Npm, breaking_below: None });
            },
            Id::NextIntl => {
                r.push(Package { name: "next-intl", manifest: Manifest::Npm, breaking_below: None });
            },
            Id::VscodeL10n => {
                r.push(Package { name: "@vscode/l10n", manifest: Manifest::Npm, breaking_below: None });
            },
            Id::FlutterArb => {
                r.push(
                    Package {
                        name: "flutter_localizations",
                        manifest: Manifest::Pubspec,
                        breaking_below: None,
                    },
                );
                r.push(Package { name: "intl", manifest: Manifest::Pubspec, breaking_below: None });
            },
        }
        r
    }

    pub fn configs(&self) -> (r: Vec<Config>)
        ensures
            r@.len() == spec_configs(self.id).len(),
            forall|i: int|
                0 <= i < r@.len() ==> (#[trigger] r@[i].stem, r@[i].language) == spec_configs(
                    self.id,
                )[i],
    {
        let mut r = Vec::new();
        match self.id {
            Id::I18next => {
                r.push(Config { stem: "i18next-parser.config", language: ConfigLanguage::Script });
                r.push(Config { stem: "next-i18next.config", language: ConfigLanguage::Script });
            },
            Id::NextIntl => {
                r.push(Config { stem: "next-intl.config", language: ConfigLanguage::Script });
            },
            Id::VscodeL10n => {},
            Id::FlutterArb => {
                r.push(Config { stem: "l10n", language: ConfigLanguage::Yaml });
            },
        }
        r
    }

    pub fn calls(&self) -> (r: Vec<&'static str>)
        ensures
            r@ == spec_calls(self.id),
    {
        let mut r = Vec::new();
        match self.id {
            Id::I18next => {
                r.push("useTranslation(");
                r.push("i18next.t(");
            },
            Id::NextIntl => {
                r.push("useTranslations(");
                r.push("getTranslations(");
                r.push("next-intl");
            },
            Id::VscodeL10n => {
                r.push("vscode.l10n.t(");
                r.push("l10n.t(");
            },
            Id::FlutterArb => {
                r.push("AppLocalizations.of(");
            },
        }
        assert(r@ =~= spec_calls(self.id));
        r
    }

    pub fn layouts(&self) -> (r: Vec<Layout>)
        ensures
            r@ == spec_layouts(self.id),
    {
        let mut r = Vec::new();
        match self.id {
            Id::I18next => {
                r.push(
                    Layout {
                        shape: Shape::Namespaced { extension: "json" },
                        directories: None,
                        keys_are_source: false,
                    },
                );
                r.push(
                    Layout {
                        shape: Shape::Shared { extension: "json" },
                        directories: Some(Directories::Locales),
                        keys_are_source: false,
                    },
                );
            },
            Id::NextIntl => {
                r.push(
                    Layout {
                        shape: Shape::Shared { extension: "json" },
                        directories: Some(Directories::Messages),
                        keys_are_source: false,
                    },
                );
            },
            Id::VscodeL10n => {
                r.push(
                    Layout {
                        shape: Shape::Fixed { prefix: "bundle.l10n", extension: "json" },
                        directories: None,
                        keys_are_source: true,
                    },
                );
                r.push(
                    Layout {
                        shape: Shape::Fixed { prefix: "package.nls", extension: "json" },
                        directories: None,
                        keys_are_source: false,
                    },
                );
            },
            Id::FlutterArb => {
                // No directory names: the extension is already the
                // distinctive part, and Flutter projects put ARB files
                // wherever `l10n.yaml` points them.
                r.push(
                    Layout {
                        shape: Shape::Shared { extension: "arb" },
                        directories: None,
                        keys_are_source: false,
                    },
                );
            },
        }
        assert(r@ =~= spec_layouts(self.id));
        r
    }

    /// Whether a key is metadata rather than a message.
    ///
    /// Applied to the **first** dotted segment, so an ARB `@greeting`
    /// object takes its children with it.
    pub fn is_metadata(&self, key: &str) -> (r: bool)
        ensures
            r == is_metadata_key(spec_metadata(self.id), utf8(key@)),
    {
        let bytes = key.as_bytes();
        let ghost k = bytes@;
        let mut end: usize = 0;
        while end < bytes.len() && bytes[end] != 0x2Eu8
            invariant
                0 <= end <= k.len(),
                k == bytes@,
                forall|j: int| 0 <= j < end ==> k[j] != 0x2Eu8,
            decreases k.len() - end,
        {
            end += 1;
        }
        proof {
            if end < k.len() {
                let c = choose|i: int|
                    0 <= i < k.len() && k[i] == 0x2Eu8 && forall|j: int| 0 <= j < i ==> k[j] != 0x2Eu8;
                assert(c == end as int) by {
                    if c < end {
                    } else if c > end {
                    }
                }
                assert(head(k) == k.take(end as int));
            } else {
                assert(head(k) == k);
                assert(k.take(end as int) =~= k);
            }
        }
        match self.metadata() {
            Metadata::DoubleAt => end >= 2 && bytes[0] == 0x40u8 && bytes[1] == 0x40u8,
            Metadata::Arb => end >= 1 && bytes[0] == 0x40u8,
        }
    }

    /// The package this library is declared by, under `name` in a
    /// manifest of that kind.
    pub fn package(&self, name: &str, manifest: Manifest) -> (r: Option<Package>)
        ensures
            r is Some <==> exists|i: int|
                0 <= i < spec_packages(self.id).len() && spec_packages(self.id)[i].0@ == name@
                    && spec_packages(self.id)[i].1 == manifest,
            r matches Some(p) ==> exists|i: int|
                0 <= i < spec_packages(self.id).len() && spec_packages(self.id)[i] == (
                    p.name,
                    p.manifest,
                    p.breaking_below,
                ) && p.name@ == name@ && p.manifest == manifest,
    {
        let packages = self.packages();
        let mut i: usize = 0;
        while i < packages.len()
            invariant
                packages@.len() == spec_packages(self.id).len(),
                forall|k: int|
                    0 <= k < packages@.len() ==> (#[trigger] packages@[k].name, packages@[k].manifest, packages@[k].breaking_below)
                        == spec_packages(self.id)[k],
                0 <= i <= packages@.len(),
                forall|j: int|
                    0 <= j < i ==> !(spec_packages(self.id)[j].0@ == name@ && spec_packages(
                        self.id,
                    )[j].1 == manifest),
            decreases packages@.len() - i,
        {
            let p = packages[i];
            proof {
                assert((packages@[i as int].name, packages@[i as int].manifest, packages@[i as int].breaking_below) == spec_packages(self.id)[i as int]);
            }
            if same(p.name, name) && p.manifest == manifest {
                return Some(p);
            }
            i += 1;
        }
        None
    }

    /// Whether a file called `<stem>.<extension>` is a config this library
    /// writes.
    pub fn writes_config(&self, stem: &str, extension: &str) -> (r: bool)
        ensures
            r == exists|i: int|
                0 <= i < spec_configs(self.id).len() && spec_configs(self.id)[i].0@ == stem@
                    && exists|k: int|
                    0 <= k < spec_extensions(spec_configs(self.id)[i].1).len() && spec_extensions(
                        spec_configs(self.id)[i].1,
                    )[k]@ == extension@,
    {
        let configs = self.configs();
        let mut i: usize = 0;
        while i < configs.len()
            invariant
                configs@.len() == spec_configs(self.id).len(),
                forall|k: int|
                    0 <= k < configs@.len() ==> (#[trigger] configs@[k].stem, configs@[k].language)
                        == spec_configs(self.id)[k],
                0 <= i <= configs@.len(),
                forall|j: int|
                    0 <= j < i ==> !(spec_configs(self.id)[j].0@ == stem@ && exists|k: int|
                        0 <= k < spec_extensions(spec_configs(self.id)[j].1).len()
                            && spec_extensions(spec_configs(self.id)[j].1)[k]@ == extension@),
            decreases configs@.len() - i,
        {
            let config = configs[i];
            proof {
                assert((configs@[i as int].stem, configs@[i as int].language) == spec_configs(self.id)[i as int]);
            }
            if config.matches(stem, extension) {
                let ghost c = spec_configs(self.id)[i as int];
                assert(config.language == c.1 && c.0@ == stem@);
                assert(exists|k: int|
                    0 <= k < spec_extensions(c.1).len() && spec_extensions(c.1)[k]@ == extension@);
                return true;
            }
            i += 1;
        }
        false
    }
}

/// The layouts a library writes, in the order they are tried.
pub open spec fn spec_layouts(id: Id) -> Seq<Layout> {
    match id {
        Id::I18next => seq![
            Layout {
                shape: Shape::Namespaced { extension: "json" },
                directories: None,
                keys_are_source: false,
            },
            Layout {
                shape: Shape::Shared { extension: "json" },
                directories: Some(Directories::Locales),
                keys_are_source: false,
            },
        ],
        Id::NextIntl => seq![
            Layout {
                shape: Shape::Shared { extension: "json" },
                directories: Some(Directories::Messages),
                keys_are_source: false,
            },
        ],
        Id::VscodeL10n => seq![
            Layout {
                shape: Shape::Fixed { prefix: "bundle.l10n", extension: "json" },
                directories: None,
                keys_are_source: true,
            },
            Layout {
                shape: Shape::Fixed { prefix: "package.nls", extension: "json" },
                directories: None,
                keys_are_source: false,
            },
        ],
        Id::FlutterArb => seq![
            Layout {
                shape: Shape::Shared { extension: "arb" },
                directories: None,
                keys_are_source: false,
            },
        ],
    }
}

} // verus!
