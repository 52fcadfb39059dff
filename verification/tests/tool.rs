use std::fmt;

use serde::de::{Deserialize, Deserializer, IgnoredAny, MapAccess, SeqAccess, Visitor};

use i18n_le::audit::Kind;
use i18n_le::catalogue::{without_byte_order_mark, Node};
use i18n_le::library::{names, Id};
use i18n_le::scan::{report_for, Diagnostic, Document, Report, ScanOptions, Status, System};
use i18n_le::tool::{
    answered, arguments, cap, files_given, library_named, FileArgument, max_results, method, offers, settle_locales, supplied_locale,
    unknown_method, unknown_tool, Method, DEFAULT_MAX_RESULTS, MAX_MAX_RESULTS, TOOL_NAME,
};

/// A JSON document read into the library's `Node`, every pair kept.
struct Doc(Node);

struct DocVisitor;

impl<'de> Visitor<'de> for DocVisitor {
    type Value = Doc;

    fn expecting(&self, formatter: &mut fmt::Formatter) -> fmt::Result {
        formatter.write_str("a JSON value")
    }

    fn visit_str<E>(self, value: &str) -> Result<Doc, E> {
        Ok(Doc(Node::Text(value.to_string())))
    }

    fn visit_string<E>(self, value: String) -> Result<Doc, E> {
        Ok(Doc(Node::Text(value)))
    }

    fn visit_bool<E>(self, _: bool) -> Result<Doc, E> {
        Ok(Doc(Node::Other))
    }

    fn visit_i64<E>(self, _: i64) -> Result<Doc, E> {
        Ok(Doc(Node::Other))
    }

    fn visit_u64<E>(self, _: u64) -> Result<Doc, E> {
        Ok(Doc(Node::Other))
    }

    fn visit_f64<E>(self, _: f64) -> Result<Doc, E> {
        Ok(Doc(Node::Other))
    }

    fn visit_unit<E>(self) -> Result<Doc, E> {
        Ok(Doc(Node::Other))
    }

    fn visit_none<E>(self) -> Result<Doc, E> {
        Ok(Doc(Node::Other))
    }

    fn visit_seq<A: SeqAccess<'de>>(self, mut sequence: A) -> Result<Doc, A::Error> {
        while sequence.next_element::<IgnoredAny>()?.is_some() {}
        Ok(Doc(Node::Other))
    }

    fn visit_map<A: MapAccess<'de>>(self, mut map: A) -> Result<Doc, A::Error> {
        let mut entries = Vec::new();
        while let Some((key, value)) = map.next_entry::<String, Doc>()? {
            entries.push((key, value.0));
        }
        Ok(Doc(Node::Object(entries)))
    }
}

impl<'de> Deserialize<'de> for Doc {
    fn deserialize<D: Deserializer<'de>>(deserializer: D) -> Result<Self, D::Error> {
        deserializer.deserialize_any(DocVisitor)
    }
}

fn document(name: &str, locale: Option<&str>, content: &str) -> Document {
    let content = without_byte_order_mark(content);
    Document {
        name: name.to_string(),
        locale: locale.map(str::to_string),
        content: serde_json::from_str::<Doc>(content)
            .map(|doc| doc.0)
            .map_err(|error| error.to_string()),
    }
}

fn system(library: Id) -> System {
    System {
        library,
        version: None,
        layout: None,
        keys_are_source: false,
        evidence: Vec::new(),
    }
}

/// What the tool does with the files it was handed, once the library is
/// named: settle the locales, then audit.
fn check(library: &str, files: &[(&str, Option<&str>, &str)]) -> Result<Report, String> {
    let library = library_named(Some(library))?;
    let names: Vec<String> = files.iter().map(|(name, _, _)| name.to_string()).collect();
    let mut supplied = Vec::new();
    for (_, locale, _) in files {
        supplied.push(match locale {
            None => None,
            Some(tag) => Some(supplied_locale(tag)?),
        });
    }
    let locales = settle_locales(&names, supplied)?;
    let documents: Vec<Document> = files
        .iter()
        .zip(locales)
        .map(|((name, _, content), locale)| document(name, locale.as_deref(), content))
        .collect();
    report_for(&documents, system(library), &ScanOptions::default())
}

#[test]
fn the_library_is_required_and_says_why() {
    let error = library_named(None).expect_err("a refusal");
    assert!(error.contains("library is required"), "{error}");
    assert!(error.contains("guessing"), "{error}");
    for known in names() {
        assert!(error.contains(known), "{error} omits {known}");
    }
}

#[test]
fn a_library_this_does_not_read_is_refused() {
    let error = library_named(Some("gettext")).expect_err("a refusal");
    assert!(error.contains("gettext"), "{error}");
}

#[test]
fn a_locale_that_is_not_a_language_tag_is_refused() {
    let error = check("i18next", &[("en.json", Some("Spanish"), "{}")]).expect_err("a refusal");
    assert!(error.contains("Spanish"), "{error}");
}

#[test]
fn a_supplied_locale_is_used_instead_of_the_name() {
    let report = check(
        "i18next",
        &[
            ("one.json", Some("en"), r#"{"a":"one"}"#),
            ("two.json", Some("es"), r#"{"a":"uno"}"#),
        ],
    )
    .expect("a result");
    assert_eq!(report.source.expect("a source").path, "one.json");
    assert_eq!(report.files[1].locale.as_deref(), Some("es"));
}

#[test]
fn a_fractional_cap_is_refused() {
    assert_eq!(
        max_results(Some(None)).expect_err("a refusal"),
        "maxResults must be a positive integer"
    );
}

#[test]
fn the_tool_reports_what_it_found() {
    let report = check(
        "i18next",
        &[
            ("en.json", None, r#"{"a":"one","b":"two"}"#),
            ("es.json", None, r#"{"a":"uno"}"#),
        ],
    )
    .expect("a result");
    assert!(offers(TOOL_NAME));
    assert_eq!(report.status, Status::Findings);
    assert_eq!(report.findings[0].kind, Kind::MissingKey);
    assert_eq!(report.findings[0].key, "b");
}

#[test]
fn agreeing_catalogues_are_an_ordinary_result() {
    let report = check(
        "i18next",
        &[("en.json", None, r#"{"a":"one"}"#), ("es.json", None, r#"{"a":"uno"}"#)],
    )
    .expect("a result");
    assert!(answered(&report.diagnostics));
    assert_eq!(report.status, Status::Clean);
}

#[test]
fn the_tool_needs_no_filesystem() {
    let report = check("i18next", &[("/definitely/not/here/en.json", None, r#"{"a":"one"}"#)])
        .expect("a result");
    assert_eq!(report.status, Status::Clean);
}

#[test]
fn an_unknown_method_is_a_protocol_error() {
    assert_eq!(method("does/not/exist"), Method::Unknown);
    assert_eq!(
        unknown_method("does/not/exist"),
        "this server does not implement does/not/exist"
    );
    assert_eq!(method("initialize"), Method::Initialize);
    assert_eq!(method("tools/list"), Method::ListTools);
    assert_eq!(method("tools/call"), Method::CallTool);
    assert_eq!(method("ping"), Method::Ping);
}

#[test]
fn an_unknown_tool_is_a_protocol_error() {
    assert!(!offers("envsync_le_check"));
    assert_eq!(
        unknown_tool("envsync_le_check"),
        "this server offers no tool named envsync_le_check"
    );
}

#[test]
fn no_message_mentions_a_command_line_flag() {
    let refusals = [
        library_named(None).expect_err("a refusal"),
        check("i18next", &[("package.json", None, "{}"), ("tsconfig.json", None, "{}")])
            .expect_err("a refusal"),
        check("i18next", &[("es.json", None, "{}"), ("fr.json", None, "{}")]).expect_err("a refusal"),
    ];
    for refusal in refusals {
        assert!(!refusal.contains("--"), "{refusal}");
    }
}

#[test]
fn a_capped_answer_says_that_it_was_capped() {
    let mut report = check(
        "i18next",
        &[("en.json", None, r#"{"a":"1","b":"2","c":"3"}"#), ("es.json", None, "{}")],
    )
    .expect("a result");
    let max = max_results(Some(Some(1))).expect("a cap");
    assert!(cap(&mut report, max));
    assert_eq!(report.findings.len(), 1);
}

#[test]
fn the_cap_defaults_and_clamps_and_refuses_zero() {
    assert_eq!(max_results(None), Ok(DEFAULT_MAX_RESULTS));
    assert_eq!(max_results(Some(Some(7))), Ok(7));
    assert_eq!(max_results(Some(Some(1_000_000))), Ok(MAX_MAX_RESULTS));
    assert!(max_results(Some(Some(0))).is_err());
}

#[test]
fn an_uncapped_answer_is_left_whole() {
    let mut report = check(
        "i18next",
        &[("en.json", None, r#"{"a":"1","b":"2"}"#), ("es.json", None, "{}")],
    )
    .expect("a result");
    assert!(!cap(&mut report, 5));
    assert_eq!(report.findings.len(), 2);
    assert_eq!(report.summary.findings, 2);
}

#[test]
fn an_error_diagnostic_means_the_audit_did_not_run() {
    let warning = Diagnostic {
        severity: "warning".to_string(),
        code: "unparsable".to_string(),
        file: "es.json".to_string(),
        message: "expected value".to_string(),
    };
    let error = Diagnostic { severity: "error".to_string(), ..warning.clone() };
    assert!(answered(&vec![warning.clone()]));
    assert!(!answered(&vec![warning, error]));
    assert!(answered(&Vec::new()));
}

#[test]
fn names_are_read_together_when_any_locale_is_left_out() {
    let names: Vec<String> = ["bundle.l10n.json", "bundle.l10n.pt-br.json"]
        .iter()
        .map(|name| name.to_string())
        .collect();
    assert_eq!(
        settle_locales(&names, vec![Some("en".to_string()), None]),
        Ok(vec![None, Some("pt-BR".to_string())])
    );
    assert_eq!(
        settle_locales(&names, vec![Some("en".to_string()), Some("de".to_string())]),
        Ok(vec![Some("en".to_string()), Some("de".to_string())])
    );
}

fn file(path: Option<&str>, content: Option<&str>, locale: Option<&str>) -> FileArgument {
    FileArgument {
        path: path.map(str::to_string),
        content: content.map(str::to_string),
        locale: locale.map(str::to_string),
    }
}

#[test]
fn a_missing_files_argument_is_refused() {
    let invalid = "files is required and must be a non-empty array of { path, content }";
    assert_eq!(files_given(None).expect_err("a refusal"), invalid);
    assert_eq!(files_given(Some(Vec::new())).expect_err("a refusal"), invalid);
    assert_eq!(
        files_given(Some(vec![file(Some("en.json"), None, None)])).expect_err("a refusal"),
        invalid
    );
    assert_eq!(
        files_given(Some(vec![file(Some("en.json"), Some("{}"), Some("Spanish"))])).expect_err("a refusal"),
        "Spanish is not a language tag"
    );
}

#[test]
fn the_arguments_are_refused_library_first_then_files_then_cap() {
    let error = arguments(None, None, Some(None)).expect_err("a refusal");
    assert!(error.starts_with("library is required"), "{error}");
    let error = arguments(Some("i18next"), None, Some(None)).expect_err("a refusal");
    assert!(error.starts_with("files is required"), "{error}");
    let error = arguments(
        Some("i18next"),
        Some(vec![file(Some("en.json"), Some("{}"), None)]),
        Some(None),
    )
    .expect_err("a refusal");
    assert_eq!(error, "maxResults must be a positive integer");
    let asked = arguments(
        Some("next-intl"),
        Some(vec![
            file(Some("one.json"), Some("{}"), Some("EN")),
            file(Some("two.json"), Some("{}"), Some("pt-br")),
        ]),
        Some(Some(9)),
    )
    .expect("arguments");
    assert_eq!(asked.library, Id::NextIntl);
    assert_eq!(asked.names, vec!["one.json".to_string(), "two.json".to_string()]);
    assert_eq!(asked.locales, vec![Some("en".to_string()), Some("pt-BR".to_string())]);
    assert_eq!(asked.max, 9);
}
