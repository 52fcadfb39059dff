use std::fmt;

use serde::de::{Deserialize, Deserializer, IgnoredAny, MapAccess, SeqAccess, Visitor};
use serde_json::Value;

use i18n_le::audit::{audit, Catalogue, Evidence, Finding, Kind, Options, Severity};
use i18n_le::catalogue::{parse, without_byte_order_mark, Node, Parsed, Shape};
use i18n_le::library::{Id, Interpolation};
use i18n_le::locale::canonicalise;
use i18n_le::message::Construct;

/// A JSON document read into the library's `Node`, every pair kept.
struct Doc(Node);

struct DocVisitor;

impl<'de> Visitor<'de> for DocVisitor {
    type Value = Doc;

    fn expecting(&self, formatter: &mut fmt::Formatter) -> fmt::Result {
        formatter.write_str("a JSON value")
    }

    fn visit_str<E>(self, value: &str) -> Result<Doc, E> {
        Ok(Doc(Node::Text(value.to_string())))
    }

    fn visit_string<E>(self, value: String) -> Result<Doc, E> {
        Ok(Doc(Node::Text(value)))
    }

    fn visit_bool<E>(self, _: bool) -> Result<Doc, E> {
        Ok(Doc(Node::Other))
    }

    fn visit_i64<E>(self, _: i64) -> Result<Doc, E> {
        Ok(Doc(Node::Other))
    }

    fn visit_u64<E>(self, _: u64) -> Result<Doc, E> {
        Ok(Doc(Node::Other))
    }

    fn visit_f64<E>(self, _: f64) -> Result<Doc, E> {
        Ok(Doc(Node::Other))
    }

    fn visit_unit<E>(self) -> Result<Doc, E> {
        Ok(Doc(Node::Other))
    }

    fn visit_none<E>(self) -> Result<Doc, E> {
        Ok(Doc(Node::Other))
    }

    fn visit_seq<A: SeqAccess<'de>>(self, mut sequence: A) -> Result<Doc, A::Error> {
        while sequence.next_element::<IgnoredAny>()?.is_some() {}
        Ok(Doc(Node::Other))
    }

    fn visit_map<A: MapAccess<'de>>(self, mut map: A) -> Result<Doc, A::Error> {
        let mut entries = Vec::new();
        while let Some((key, value)) = map.next_entry::<String, Doc>()? {
            entries.push((key, value.0));
        }
        Ok(Doc(Node::Object(entries)))
    }
}

impl<'de> Deserialize<'de> for Doc {
    fn deserialize<D: Deserializer<'de>>(deserializer: D) -> Result<Self, D::Error> {
        deserializer.deserialize_any(DocVisitor)
    }
}

fn read(content: &str) -> Result<Parsed, String> {
    let content = without_byte_order_mark(content);
    let doc: Doc = serde_json::from_str(content).map_err(|error| error.to_string())?;
    parse(&doc.0)
}

fn catalogue(path: &str, content: &str) -> Catalogue {
    let parsed = read(content).expect("parses");
    Catalogue {
        path: path.to_string(),
        locale: canonicalise(path.trim_end_matches(".json")),
        entries: parsed.entries,
        duplicates: parsed.duplicates,
    }
}

fn under(library: Id, source: &str, target: &str) -> Vec<Finding> {
    let files = [
        catalogue("en.json", source).without_metadata(&library.library()),
        catalogue("es.json", target).without_metadata(&library.library()),
    ];
    audit(&files, 0, Options { library, keys_are_source: false })
}

fn kinds(findings: &[Finding]) -> Vec<Kind> {
    findings.iter().map(|finding| finding.kind).collect()
}

fn kind_name(kind: Kind) -> &'static str {
    match kind {
        Kind::MissingKey => "missing-key",
        Kind::ExtraKey => "extra-key",
        Kind::PlaceholderCountMismatch => "placeholder-count-mismatch",
        Kind::PlaceholderNameMismatch => "placeholder-name-mismatch",
        Kind::PlaceholderStyleMismatch => "placeholder-style-mismatch",
        Kind::ConventionMismatch => "convention-mismatch",
        Kind::EmptyValue => "empty-value",
        Kind::Untranslated => "untranslated",
        Kind::DuplicateKeyWithinFile => "duplicate-key-within-file",
        Kind::StructureMismatch => "structure-mismatch",
    }
}

/// The findings as the report writes them.
fn rendered(findings: &[Finding]) -> String {
    let list: Vec<Value> = findings
        .iter()
        .map(|finding| {
            let mut object = serde_json::Map::new();
            let severity = match finding.severity {
                Severity::Error => "error",
                Severity::Warning => "warning",
                Severity::Info => "info",
            };
            object.insert("severity".into(), Value::from(severity));
            object.insert("kind".into(), Value::from(kind_name(finding.kind)));
            object.insert("file".into(), Value::from(finding.file.clone()));
            object.insert("key".into(), Value::from(finding.key.clone()));
            match &finding.evidence {
                None => {}
                Some(Evidence::Tokens { source, target }) => {
                    object.insert("sourceTokens".into(), Value::from(source.clone()));
                    object.insert("targetTokens".into(), Value::from(target.clone()));
                }
                Some(Evidence::Counts { source, target }) => {
                    object.insert("sourceCount".into(), Value::from(*source));
                    object.insert("targetCount".into(), Value::from(*target));
                }
                Some(Evidence::Styles { source, target }) => {
                    object.insert("sourceStyle".into(), Value::from(format!("{source:?}")));
                    object.insert("targetStyle".into(), Value::from(format!("{target:?}")));
                }
                Some(Evidence::Shapes { source, target }) => {
                    object.insert("sourceShape".into(), Value::from(format!("{source:?}").to_lowercase()));
                    object.insert("targetShape".into(), Value::from(format!("{target:?}").to_lowercase()));
                }
                Some(Evidence::Occurrences { occurrences }) => {
                    object.insert("occurrences".into(), Value::from(*occurrences));
                }
                Some(Evidence::Foreign { construct, offset }) => {
                    let name = match construct {
                        Construct::IcuArgument => "icu-argument",
                        Construct::Fluent => "fluent",
                        Construct::Printf => "printf",
                        Construct::TemplateLiteral => "template-literal",
                        Construct::Nesting => "nesting",
                    };
                    object.insert("construct".into(), Value::from(name));
                    object.insert("offset".into(), Value::from(*offset));
                }
            }
            Value::Object(object)
        })
        .collect();
    serde_json::to_string(&Value::Array(list)).expect("serializes")
}

#[test]
fn matching_catalogues_have_nothing_to_say() {
    assert_eq!(under(Id::I18next, r#"{"a":"one"}"#, r#"{"a":"uno"}"#), []);
}

#[test]
fn a_key_the_target_lacks_is_missing() {
    let findings = under(Id::I18next, r#"{"a":"one","b":"two"}"#, r#"{"a":"uno"}"#);
    assert_eq!(kinds(&findings), [Kind::MissingKey]);
    assert_eq!(findings[0].key, "b");
    assert_eq!(findings[0].file, "es.json");
}

#[test]
fn a_key_the_source_lacks_is_extra() {
    let findings = under(Id::I18next, r#"{"a":"one"}"#, r#"{"a":"uno","z":"zeta"}"#);
    assert_eq!(kinds(&findings), [Kind::ExtraKey]);
    assert_eq!(findings[0].key, "z");
}

#[test]
fn an_object_in_one_locale_and_a_string_in_another_is_a_structure_mismatch() {
    let findings = under(Id::I18next, r#"{"a":{"b":"one"}}"#, r#"{"a":"uno"}"#);
    assert_eq!(kinds(&findings), [Kind::StructureMismatch]);
    assert_eq!(
        findings[0].evidence,
        Some(Evidence::Shapes { source: Shape::Object, target: Shape::Text })
    );
}

#[test]
fn nothing_below_a_structure_mismatch_is_reported_twice() {
    let findings = under(
        Id::I18next,
        r#"{"a":{"b":"one","c":"two","d":"three"}}"#,
        r#"{"a":"uno"}"#,
    );
    assert_eq!(kinds(&findings), [Kind::StructureMismatch]);
}

#[test]
fn a_duplicated_key_is_reported_with_its_count() {
    let findings = under(Id::I18next, r#"{"a":"one"}"#, r#"{"a":"uno","a":"otra"}"#);
    assert_eq!(kinds(&findings), [Kind::DuplicateKeyWithinFile]);
    assert_eq!(findings[0].evidence, Some(Evidence::Occurrences { occurrences: 2 }));
}

#[test]
fn an_empty_translation_is_a_warning_and_not_also_untranslated() {
    let findings = under(Id::I18next, r#"{"a":"one"}"#, r#"{"a":"   "}"#);
    assert_eq!(kinds(&findings), [Kind::EmptyValue]);
    assert_eq!(findings[0].severity, Severity::Warning);
    assert_eq!(
        kinds(&under(Id::I18next, r#"{"a":""}"#, r#"{"a":""}"#)),
        [Kind::EmptyValue, Kind::EmptyValue]
    );
}

#[test]
fn a_byte_identical_translation_is_information() {
    let findings = under(Id::I18next, r#"{"a":"Dashboard"}"#, r#"{"a":"Dashboard"}"#);
    assert_eq!(kinds(&findings), [Kind::Untranslated]);
    assert_eq!(findings[0].severity, Severity::Info);
}

#[test]
fn a_dropped_placeholder_is_a_count_mismatch() {
    let findings = under(Id::I18next, r#"{"a":"{{x}} of {{y}}"}"#, r#"{"a":"{{x}}"}"#);
    assert_eq!(kinds(&findings), [Kind::PlaceholderCountMismatch]);
    assert_eq!(findings[0].evidence, Some(Evidence::Counts { source: 2, target: 1 }));
}

#[test]
fn a_renamed_placeholder_is_a_name_mismatch() {
    let findings = under(Id::I18next, r#"{"a":"in {{timeframe}}"}"#, r#"{"a":"en {{periodo}}"}"#);
    assert_eq!(kinds(&findings), [Kind::PlaceholderNameMismatch]);
    assert_eq!(
        findings[0].evidence,
        Some(Evidence::Tokens {
            source: vec!["timeframe".to_string()],
            target: vec!["periodo".to_string()],
        })
    );
}

#[test]
fn a_wrong_brace_style_is_a_style_mismatch_only_where_a_placeholder_belonged() {
    let findings = under(Id::I18next, r#"{"a":"{{name}}"}"#, r#"{"a":"{name}"}"#);
    assert_eq!(kinds(&findings), [Kind::PlaceholderStyleMismatch]);
    assert_eq!(
        findings[0].evidence,
        Some(Evidence::Styles {
            source: Interpolation::DoubleBrace,
            target: Interpolation::SingleBrace
        })
    );

    let prose = under(Id::I18next, r#"{"a":"Use braces"}"#, r#"{"a":"Escribe {llaves}"}"#);
    assert_eq!(kinds(&prose), [], "no placeholder belonged there");
}

#[test]
fn a_construct_from_another_convention_is_a_finding() {
    let findings = under(
        Id::I18next,
        r#"{"a":"{n, plural, other {#}}","b":"in {{timeframe}}"}"#,
        r#"{"a":"x","b":"en {{periodo}}"}"#,
    );
    assert_eq!(kinds(&findings), [Kind::ConventionMismatch, Kind::PlaceholderNameMismatch]);
    assert_eq!(findings[0].file, "en.json");
    assert_eq!(
        findings[0].evidence,
        Some(Evidence::Foreign { construct: Construct::IcuArgument, offset: 0 })
    );
}

#[test]
fn a_convention_mismatch_suppresses_the_placeholder_check_for_that_key() {
    let findings = under(
        Id::I18next,
        r#"{"a":"{{count}} items"}"#,
        r#"{"a":"{count, plural, other {# elementos}}"}"#,
    );
    assert_eq!(kinds(&findings), [Kind::ConventionMismatch]);
    assert_eq!(findings[0].file, "es.json");
}

#[test]
fn an_icu_plural_is_compared_as_one_token_under_an_icu_library() {
    assert_eq!(
        kinds(&under(
            Id::NextIntl,
            r#"{"a":"{count, plural, one {# item} other {# items}}"}"#,
            r#"{"a":"{count, plural, other {# elementos}}"}"#,
        )),
        []
    );
    assert_eq!(
        kinds(&under(
            Id::NextIntl,
            r#"{"a":"{count, plural, one {# item} other {# items}}"}"#,
            r#"{"a":"elementos"}"#,
        )),
        [Kind::PlaceholderCountMismatch]
    );
}

#[test]
fn plural_variants_are_one_key_where_the_library_writes_them_that_way() {
    assert_eq!(
        kinds(&under(
            Id::I18next,
            r#"{"item_one":"{{count}} item","item_other":"{{count}} items"}"#,
            r#"{"item_one":"{{count}} element","item_few":"{{count}} elementy","item_many":"{{count}} elementów","item_other":"{{count}} elementu"}"#,
        )),
        []
    );
    let gone = under(
        Id::I18next,
        r#"{"item_one":"{{count}} item","item_other":"{{count}} items"}"#,
        r#"{"other":"x"}"#,
    );
    assert_eq!(kinds(&gone), [Kind::MissingKey, Kind::ExtraKey]);
    assert_eq!(gone[0].key, "item", "the base, named once");
}

#[test]
fn plural_variants_are_ordinary_keys_under_an_icu_library() {
    assert_eq!(
        kinds(&under(
            Id::NextIntl,
            r#"{"item_one":"a","item_other":"b"}"#,
            r#"{"item_one":"c","item_few":"d","item_other":"e"}"#,
        )),
        [Kind::ExtraKey]
    );
}

#[test]
fn arb_metadata_is_not_compared() {
    let findings = under(
        Id::FlutterArb,
        r#"{"@@locale":"en","greeting":"Hi {name}","@greeting":{"description":"a"}}"#,
        r#"{"@@locale":"es","greeting":"Hola {name}"}"#,
    );
    assert_eq!(kinds(&findings), []);
}

#[test]
fn keys_can_be_the_source() {
    let library = Id::VscodeL10n;
    let files = [
        catalogue("bundle.l10n.json", r#"{"Save {0}":"Save {0}"}"#),
        catalogue("bundle.l10n.de.json", r#"{"Save {0}":"Save {0}"}"#),
    ];
    let findings = audit(&files, 0, Options { library, keys_are_source: true });
    assert_eq!(kinds(&findings), [Kind::Untranslated]);
}

#[test]
fn no_translated_value_reaches_the_report() {
    let findings = under(
        Id::I18next,
        r#"{"a":"in {{timeframe}}","b":"Dashboard","c":"one"}"#,
        r#"{"a":"en {{periodo}}","b":"Dashboard","c":"uno","d":"sobrante"}"#,
    );
    let rendered = rendered(&findings);
    for translated in ["en {{periodo}}", "uno", "sobrante", "Dashboard"] {
        assert!(!rendered.contains(translated), "{rendered}");
    }
    assert!(rendered.contains("periodo"), "the token is the finding");
    assert!(rendered.contains(r#""key":"d""#), "the key is the finding");
}

#[test]
fn a_convention_mismatch_carries_no_value_either() {
    let findings = under(
        Id::I18next,
        r#"{"a":"one"}"#,
        r#"{"a":"{n, plural, other {# elementos secretos}}"}"#,
    );
    let rendered = rendered(&findings);
    assert!(!rendered.contains("elementos"), "{rendered}");
    assert!(rendered.contains("icu-argument"), "{rendered}");
}

#[test]
fn a_single_catalogue_has_nothing_to_compare_against() {
    let files = [catalogue("en.json", r#"{"a":"one"}"#)];
    assert_eq!(audit(&files, 0, Options { library: Id::I18next, keys_are_source: false }), []);
}

// ---------------------------------------------------------------------
// ---------------------------------------------------------------------

/// Every kind carries the severity its kind decides, and every finding
/// against a target names that target.
#[test]
fn findings_are_graded_by_kind_and_filed_against_the_target() {
    let findings = under(
        Id::I18next,
        r#"{"a":"one","b":"{{x}}","c":"Same","d":"gone"}"#,
        r#"{"a":"","b":"{{y}}","c":"Same","z":"extra"}"#,
    );
    assert!(!findings.is_empty());
    for finding in &findings {
        let expected = match finding.kind {
            Kind::EmptyValue => Severity::Warning,
            Kind::Untranslated => Severity::Info,
            _ => Severity::Error,
        };
        assert_eq!(finding.severity, expected, "{finding:?}");
        assert_eq!(finding.file, "es.json", "{finding:?}");
    }
}

/// A catalogue compared with itself misses nothing and has nothing extra.
#[test]
fn a_catalogue_compared_with_itself_lacks_nothing() {
    let text = r#"{"a":"one","b":{"c":"two"},"item_one":"x","item_other":"y"}"#;
    let files = [catalogue("en.json", text), catalogue("en-GB.json", text)];
    let findings = audit(&files, 0, Options { library: Id::I18next, keys_are_source: false });
    assert!(findings
        .iter()
        .all(|finding| finding.kind != Kind::MissingKey && finding.kind != Kind::ExtraKey));
}

/// Names are compared as a sorted set: the same tokens in another order
/// are no finding, and a renamed one lists both sides sorted.
#[test]
fn token_names_are_compared_sorted_and_distinct() {
    assert_eq!(
        under(Id::I18next, r#"{"a":"{{b}} {{a}}"}"#, r#"{"a":"{{a}} {{b}}"}"#),
        []
    );
    let findings = under(Id::I18next, r#"{"a":"{{z}} {{b}}"}"#, r#"{"a":"{{y}} {{a}}"}"#);
    assert_eq!(
        findings[0].evidence,
        Some(Evidence::Tokens {
            source: vec!["b".to_string(), "z".to_string()],
            target: vec!["a".to_string(), "y".to_string()],
        })
    );
}

/// Metadata keys and duplicates are dropped by the library's rule.
#[test]
fn dropping_metadata_keeps_every_other_key() {
    let c = catalogue(
        "en.arb",
        r#"{"@@locale":"en","a":"x","@a":{"description":"d"},"@@locale":"en"}"#,
    )
    .without_metadata(&Id::FlutterArb.library());
    let keys: Vec<&str> = c.entries.iter().map(|entry| entry.key.as_str()).collect();
    assert_eq!(keys, ["a"]);
    assert!(c.duplicates.is_empty());
    assert_eq!(c.key_count(), 1);
}

#[test]
fn absent_bases_are_named_once_in_first_appearance_order() {
    let file = catalogue("en.json", r#"{"zeta_one": "a", "alpha": "b", "zeta_other": "c", "kept": "d", "alpha": "e"}"#);
    let present = vec!["kept"];
    let found = i18n_le::audit::absent(&file, &present, &Vec::new(), true, "de.json", Kind::MissingKey);
    let keys: Vec<&str> = found.iter().map(|finding| finding.key.as_str()).collect();
    assert_eq!(keys, vec!["zeta", "alpha"]);
    for finding in &found {
        assert_eq!(finding.severity, Severity::Error);
        assert_eq!(finding.kind, Kind::MissingKey);
        assert_eq!(finding.file, "de.json");
        assert!(finding.evidence.is_none());
    }
}
