use std::fmt;

use serde::de::{Deserialize, Deserializer, IgnoredAny, MapAccess, SeqAccess, Visitor};

use i18n_le::audit::{Finding, Kind, Severity};
use i18n_le::catalogue::{without_byte_order_mark, Node};
use i18n_le::identify::{Class, Signal};
use i18n_le::library::Id;
use i18n_le::scan::{exit_code, report_for, Document, FailOn, Report, ScanOptions, Status, System};

/// A JSON document read into the library's `Node`, every pair kept.
struct Doc(Node);

struct DocVisitor;

impl<'de> Visitor<'de> for DocVisitor {
    type Value = Doc;

    fn expecting(&self, formatter: &mut fmt::Formatter) -> fmt::Result {
        formatter.write_str("a JSON value")
    }

    fn visit_str<E>(self, value: &str) -> Result<Doc, E> {
        Ok(Doc(Node::Text(value.to_string())))
    }

    fn visit_string<E>(self, value: String) -> Result<Doc, E> {
        Ok(Doc(Node::Text(value)))
    }

    fn visit_bool<E>(self, _: bool) -> Result<Doc, E> {
        Ok(Doc(Node::Other))
    }

    fn visit_i64<E>(self, _: i64) -> Result<Doc, E> {
        Ok(Doc(Node::Other))
    }

    fn visit_u64<E>(self, _: u64) -> Result<Doc, E> {
        Ok(Doc(Node::Other))
    }

    fn visit_f64<E>(self, _: f64) -> Result<Doc, E> {
        Ok(Doc(Node::Other))
    }

    fn visit_unit<E>(self) -> Result<Doc, E> {
        Ok(Doc(Node::Other))
    }

    fn visit_none<E>(self) -> Result<Doc, E> {
        Ok(Doc(Node::Other))
    }

    fn visit_seq<A: SeqAccess<'de>>(self, mut sequence: A) -> Result<Doc, A::Error> {
        while sequence.next_element::<IgnoredAny>()?.is_some() {}
        Ok(Doc(Node::Other))
    }

    fn visit_map<A: MapAccess<'de>>(self, mut map: A) -> Result<Doc, A::Error> {
        let mut entries = Vec::new();
        while let Some((key, value)) = map.next_entry::<String, Doc>()? {
            entries.push((key, value.0));
        }
        Ok(Doc(Node::Object(entries)))
    }
}

impl<'de> Deserialize<'de> for Doc {
    fn deserialize<D: Deserializer<'de>>(deserializer: D) -> Result<Self, D::Error> {
        deserializer.deserialize_any(DocVisitor)
    }
}

fn document(name: &str, locale: Option<&str>, content: &str) -> Document {
    let content = without_byte_order_mark(content);
    Document {
        name: name.to_string(),
        locale: locale.map(str::to_string),
        content: serde_json::from_str::<Doc>(content)
            .map(|doc| doc.0)
            .map_err(|error| error.to_string()),
    }
}

fn system(library: Id) -> System {
    System {
        library,
        version: None,
        layout: None,
        keys_are_source: false,
        evidence: Vec::new(),
    }
}

fn report(documents: Vec<Document>) -> Report {
    report_for(&documents, system(Id::I18next), &ScanOptions::default()).expect("a report")
}

#[test]
fn matching_catalogues_are_clean_and_exit_zero() {
    let report = report(vec![
        document("en.json", Some("en"), r#"{"a":"one"}"#),
        document("es.json", Some("es"), r#"{"a":"uno"}"#),
    ]);
    assert_eq!(report.status, Status::Clean);
    assert_eq!(report.source.as_ref().expect("a source").path, "en.json");
    assert_eq!(exit_code(&report, FailOn::Findings, false), 0);
}

#[test]
fn scan_a_missing_key_exits_one() {
    let report = report(vec![
        document("en.json", Some("en"), r#"{"a":"one","b":"two"}"#),
        document("es.json", Some("es"), r#"{"a":"uno"}"#),
    ]);
    assert_eq!(report.status, Status::Findings);
    assert_eq!(report.summary.findings, 1);
    assert_eq!(exit_code(&report, FailOn::Findings, false), 1);
}

#[test]
fn an_untranslated_string_does_not_fail_a_run_until_asked() {
    let report = report(vec![
        document("en.json", Some("en"), r#"{"a":"Dashboard"}"#),
        document("es.json", Some("es"), r#"{"a":"Dashboard"}"#),
    ]);
    assert_eq!(report.findings[0].kind, Kind::Untranslated);
    assert_eq!(exit_code(&report, FailOn::Findings, false), 0);
    assert_eq!(exit_code(&report, FailOn::Untranslated, false), 1);
    assert_eq!(exit_code(&report, FailOn::Any, false), 1);
}

#[test]
fn no_catalogues_is_not_a_failure() {
    let report = report(Vec::new());
    assert_eq!(report.status, Status::NoFiles);
    assert_eq!(exit_code(&report, FailOn::Findings, false), 0);
}

#[test]
fn scan_the_source_can_be_named_by_path_or_by_tag() {
    for named in ["fr.json", "fr", "FR"] {
        let documents = vec![
            document("en.json", Some("en"), r#"{"a":"one"}"#),
            document("fr.json", Some("fr"), r#"{"a":"un","b":"deux"}"#),
        ];
        let report = report_for(
            &documents,
            system(Id::I18next),
            &ScanOptions {
                source: Some(named.to_string()),
                ..ScanOptions::default()
            },
        )
        .expect("a report");
        assert_eq!(report.source.expect("a source").path, "fr.json", "{named}");
    }
}

#[test]
fn two_english_candidates_name_the_fix_rather_than_pick_one() {
    let error = report_for(
        &vec![
            document("en.json", Some("en"), "{}"),
            document("en-GB.json", Some("en-GB"), "{}"),
            document("es.json", Some("es"), "{}"),
        ],
        system(Id::I18next),
        &ScanOptions::default(),
    )
    .expect_err("a refusal");
    assert!(error.contains("source"), "{error}");
    assert!(error.contains("en-GB.json"), "{error}");
}

#[test]
fn an_untagged_catalogue_is_the_english_one() {
    let report = report_for(
        &vec![
            document("bundle.l10n.json", None, r#"{"Save":"Save"}"#),
            document("bundle.l10n.de.json", Some("de"), r#"{"Save":"Speichern"}"#),
        ],
        System {
            keys_are_source: true,
            ..system(Id::VscodeL10n)
        },
        &ScanOptions::default(),
    )
    .expect("a report");
    assert_eq!(report.source.expect("a source").path, "bundle.l10n.json");
}

#[test]
fn no_refusal_from_the_shared_layer_names_a_flag() {
    let sets: Vec<Vec<Document>> = vec![
        vec![
            document("en.json", Some("en"), "{}"),
            document("en-GB.json", Some("en-GB"), "{}"),
        ],
        vec![document("es.json", Some("es"), "{}")],
        vec![document("en.json", Some("en"), "{}")],
    ];
    for (index, documents) in sets.iter().enumerate() {
        let options = ScanOptions {
            source: if index == 2 { Some("de".to_string()) } else { None },
            ..ScanOptions::default()
        };
        let error = report_for(documents, system(Id::I18next), &options).expect_err("a refusal");
        assert!(!error.contains("--"), "{error}");
    }
}

#[test]
fn no_string_field_in_a_report_carries_a_translated_value() {
    let report = report_for(
        &vec![
            document("en.json", Some("en"), r#"{"a":"Welcome back","b":"Save"}"#),
            document("es.json", Some("es"), r#"{"a":"Bienvenido de nuevo","z":"Sobrante"}"#),
            document("fr.json", Some("fr"), r#"{"a":"Bon retour"#),
        ],
        System {
            version: Some("^26.2.0".to_string()),
            evidence: vec![Signal {
                class: Class::Manifest,
                library: Id::I18next,
                detail: "i18next in ../package.json".to_string(),
            }],
            ..system(Id::I18next)
        },
        &ScanOptions::default(),
    )
    .expect("a report");

    let strings = [
        report
            .diagnostics
            .iter()
            .map(|diagnostic| diagnostic.message.clone())
            .collect::<Vec<_>>(),
        report.system.evidence.iter().map(|signal| signal.detail.clone()).collect(),
        report.files.iter().map(|file| file.path.clone()).collect(),
        report.system.version.clone().into_iter().collect(),
    ]
    .concat();
    assert!(!strings.is_empty(), "nothing was checked");
    for carried in strings {
        for translated in ["Bienvenido", "Bon retour", "Sobrante", "Welcome back"] {
            assert!(!carried.contains(translated), "{carried}");
        }
    }
}

#[test]
fn a_catalogue_that_will_not_parse_is_named_rather_than_dropped() {
    let report = report(vec![
        document("en.json", Some("en"), r#"{"a":"one"}"#),
        document("es.json", Some("es"), "{ not json"),
    ]);
    assert_eq!(report.diagnostics.len(), 1);
    assert_eq!(report.diagnostics[0].file, "es.json");
    assert_eq!(report.diagnostics[0].code, "unparsable");
    assert_eq!(report.files.len(), 1);
    assert_eq!(exit_code(&report, FailOn::Findings, true), 2);
}

#[test]
fn the_report_counts_keys_rather_than_listing_them() {
    let report = report(vec![
        document("en.json", Some("en"), r#"{"a":{"b":"one","c":"two"}}"#),
        document("es.json", Some("es"), r#"{"a":{"b":"uno","c":"dos"}}"#),
    ]);
    assert_eq!(report.files[0].keys, 2, "the object itself is not a key");
}

#[test]
fn a_document_that_is_not_an_object_is_a_diagnostic() {
    let report = report(vec![
        document("en.json", Some("en"), r#"{"a":"one"}"#),
        document("es.json", Some("es"), r#"["uno"]"#),
    ]);
    assert_eq!(report.diagnostics.len(), 1);
    assert_eq!(report.diagnostics[0].severity, "warning");
    assert_eq!(report.diagnostics[0].code, "unparsable");
    assert_eq!(report.files.len(), 1);
    assert_eq!(report.schema, 3);
    assert_eq!(exit_code(&report, FailOn::Findings, false), 0);
}

#[test]
fn a_source_that_is_not_here_is_refused_with_the_list() {
    let error = report_for(
        &vec![
            document("en.json", Some("en"), "{}"),
            document("es.json", Some("es"), "{}"),
        ],
        system(Id::I18next),
        &ScanOptions {
            source: Some("de".to_string()),
            ..ScanOptions::default()
        },
    )
    .expect_err("a refusal");
    assert_eq!(error, "no catalogue here is called de. Found: en.json, es.json");
}

#[test]
fn no_english_candidate_asks_for_the_source() {
    let error = report(vec![]).status;
    assert_eq!(error, Status::NoFiles);
    let refusal = report_for(
        &vec![
            document("de.json", Some("de"), "{}"),
            document("es.json", Some("es"), "{}"),
        ],
        system(Id::I18next),
        &ScanOptions::default(),
    )
    .expect_err("a refusal");
    assert_eq!(
        refusal,
        "no English catalogue here, so say which one is the source. Found: de.json, es.json"
    );
}

#[test]
fn the_default_never_fails_on_information_alone() {
    let report = report(vec![
        document("en.json", Some("en"), r#"{"a":"Save","b":"Open"}"#),
        document("es.json", Some("es"), r#"{"a":"Save","b":"Open"}"#),
    ]);
    assert!(report.findings.iter().all(|f: &Finding| f.severity == Severity::Info));
    assert_eq!(report.summary.findings, 2);
    assert_eq!(exit_code(&report, FailOn::Findings, false), 0);
    assert_eq!(exit_code(&report, FailOn::Findings, true), 0);
}
