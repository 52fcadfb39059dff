use i18n_le::identify::{
    call_signals, config_signals, content_signals, decide, distinctive, major_of, npm_signals,
    npm_version, pubspec_dependencies, pubspec_signals, pubspec_version, sampled_marks, shown,
    version_refusal, Class, Dependency, Signal,
};
use i18n_le::library::{Id, Mark};

fn signal(class: Class, library: Id, detail: &str) -> Signal {
    Signal { class, library, detail: detail.to_string() }
}

fn dependency(package: &str, version: &str) -> Dependency {
    Dependency { package: package.to_string(), version: Some(version.to_string()) }
}

fn parts(path: &str) -> Vec<String> {
    path.split('/').filter(|part| !part.is_empty()).map(str::to_string).collect()
}

const PUBSPEC: &str =
    "name: app\ndependencies:\n  flutter_localizations:\n    sdk: flutter\n  intl: ^0.19.0\n";

#[test]
fn two_agreeing_classes_identify_the_library() {
    let evidence = vec![
        signal(Class::Manifest, Id::I18next, "i18next in ../package.json"),
        signal(Class::Content, Id::I18next, "double-brace"),
        signal(Class::CallSite, Id::I18next, "useTranslation( in ../src/app.tsx"),
    ];
    assert_eq!(decide(&evidence), Ok(Id::I18next));
}

#[test]
fn a_decisive_signature_needs_no_second_class() {
    let evidence = vec![signal(Class::Content, Id::FlutterArb, "arb-metadata")];
    assert_eq!(decide(&evidence), Ok(Id::FlutterArb));
}

#[test]
fn one_class_alone_is_refused_and_says_what_it_saw() {
    let error = decide(&vec![signal(Class::Content, Id::I18next, "double-brace")])
        .expect_err("a refusal");
    assert_eq!(
        error,
        "no i18n library could be identified here. Found, but not enough to agree: \
         i18next content: double-brace. Two classes of evidence are needed. \
         Name it with --system <name>."
    );
}

#[test]
fn no_evidence_is_refused_and_says_where_it_looked() {
    let error = decide(&Vec::new()).expect_err("a refusal");
    assert!(error.contains("manifest"), "{error}");
    assert!(error.contains("call sites"), "{error}");
}

#[test]
fn two_identified_libraries_are_both_named() {
    let evidence = vec![
        signal(Class::Manifest, Id::I18next, "i18next in ../package.json"),
        signal(Class::Manifest, Id::NextIntl, "next-intl in ../package.json"),
        signal(Class::CallSite, Id::I18next, "useTranslation( in ../src/a.tsx"),
        signal(Class::CallSite, Id::NextIntl, "useTranslations( in ../src/a.tsx"),
    ];
    assert_eq!(
        decide(&evidence).expect_err("a refusal"),
        "2 libraries are identified here and only one can be right: \
         i18next (manifest: i18next in ../package.json, call site: useTranslation( in ../src/a.tsx); \
         next-intl (manifest: next-intl in ../package.json, call site: useTranslations( in ../src/a.tsx). \
         Name the one these catalogues belong to with --system <name>."
    );
}

#[test]
fn a_decisive_signature_outranks_two_classes_elsewhere() {
    let evidence = vec![
        signal(Class::Manifest, Id::I18next, "i18next in ../package.json"),
        signal(Class::CallSite, Id::I18next, "useTranslation( in ../src/a.ts"),
        signal(Class::Content, Id::FlutterArb, "arb-metadata"),
    ];
    assert_eq!(decide(&evidence), Ok(Id::FlutterArb));
}

#[test]
fn an_npm_manifest_votes_for_each_package_it_declares() {
    let signals = npm_signals(
        &vec![dependency("i18next", "^26.2.0"), dependency("react-i18next", "^17.0.0")],
        false,
        "../package.json",
    );
    assert_eq!(
        signals,
        vec![
            signal(Class::Manifest, Id::I18next, "i18next in ../package.json"),
            signal(Class::Manifest, Id::I18next, "react-i18next in ../package.json"),
        ]
    );
    let bundle = npm_signals(&Vec::new(), true, "../package.json");
    assert_eq!(
        bundle,
        vec![signal(Class::Manifest, Id::VscodeL10n, "the l10n field in ../package.json")]
    );
}

#[test]
fn a_pubspec_is_read_line_by_line() {
    assert_eq!(
        pubspec_dependencies(PUBSPEC),
        vec![("flutter_localizations", ""), ("sdk", "flutter"), ("intl", "^0.19.0")]
    );
    let signals = pubspec_signals(PUBSPEC, "../../pubspec.yaml");
    assert_eq!(
        signals,
        vec![
            signal(Class::Manifest, Id::FlutterArb, "flutter_localizations in ../../pubspec.yaml"),
            signal(Class::Manifest, Id::FlutterArb, "intl in ../../pubspec.yaml"),
        ]
    );
    assert_eq!(pubspec_version(Id::FlutterArb, PUBSPEC).as_deref(), Some("^0.19.0"));
}

#[test]
fn a_pubspec_without_a_version_gives_none() {
    let text = "name: app\ndependencies:\n  flutter_localizations:\n    sdk: flutter\n";
    assert_eq!(pubspec_version(Id::FlutterArb, text), None);
    assert!(pubspec_dependencies("name: app\n").is_empty());
}

#[test]
fn a_major_below_the_floor_is_refused_by_name() {
    let error = version_refusal(Id::I18next, &vec![dependency("i18next", "^21.6.0")], "../package.json")
        .expect_err("a refusal");
    assert_eq!(
        error,
        "i18next ^21.6.0 in ../package.json writes its catalogues differently from 23 and later, \
         which is the model this reads. Auditing it as i18next would be wrong."
    );
}

#[test]
fn a_newer_major_is_read_and_its_version_reported() {
    let declared = vec![dependency("i18next", "^99.0.0")];
    assert_eq!(version_refusal(Id::I18next, &declared, "../package.json"), Ok(()));
    assert_eq!(npm_version(Id::I18next, &declared).as_deref(), Some("^99.0.0"));
    assert_eq!(npm_version(Id::NextIntl, &declared), None);
}

#[test]
fn the_major_is_read_from_a_spec_or_an_alias() {
    assert_eq!(major_of("^26.2.0"), Some(26));
    assert_eq!(major_of("npm:i18next@^22.0.0"), Some(22));
    assert_eq!(major_of("~3"), Some(3));
    assert_eq!(major_of(">=21.1"), Some(21));
    assert_eq!(major_of("latest"), None);
    assert_eq!(major_of("npm:i18next"), None);
    assert_eq!(major_of("99999999999999999999999"), None);
}

#[test]
fn a_config_votes_only_in_an_extension_its_library_writes() {
    assert!(config_signals("l10n.json", "../l10n.json").is_empty());
    assert!(config_signals("l10n.ts", "../l10n.ts").is_empty());
    assert!(config_signals("l10n", "../l10n").is_empty());
    assert_eq!(
        config_signals("l10n.yaml", "../l10n.yaml"),
        vec![signal(Class::Config, Id::FlutterArb, "../l10n.yaml")]
    );
    assert_eq!(
        config_signals("i18next-parser.config.mjs", "../i18next-parser.config.mjs"),
        vec![signal(Class::Config, Id::I18next, "../i18next-parser.config.mjs")]
    );
}

#[test]
fn a_call_site_is_recorded_once_per_library() {
    let mut signals = Vec::new();
    call_signals(&mut signals, "const { t } = useTranslation()\n", "../src/app.tsx");
    call_signals(&mut signals, "useTranslation()\n", "../src/other.tsx");
    call_signals(&mut signals, "vscode.l10n.t('Save')\n", "../src/extension.ts");
    assert_eq!(
        signals,
        vec![
            signal(Class::CallSite, Id::I18next, "useTranslation( in ../src/app.tsx"),
            signal(Class::CallSite, Id::VscodeL10n, "vscode.l10n.t( in ../src/extension.ts"),
        ]
    );
}

#[test]
fn a_weak_mark_is_seen_but_does_not_vote() {
    assert!(content_signals(&vec![Mark::SingleBrace]).is_empty());
    assert_eq!(
        content_signals(&vec![Mark::ArbMetadata]),
        vec![signal(Class::Content, Id::FlutterArb, "arb-metadata")]
    );
    let strong = content_signals(&vec![Mark::DoubleBrace]);
    assert_eq!(strong, vec![signal(Class::Content, Id::I18next, "double-brace")]);
}

#[test]
fn marks_are_noted_once_in_discovery_order() {
    let mut marks = Vec::new();
    sampled_marks(&["a", "b"], &["Hello {{name}}", "Bye {{name}}"], &mut marks);
    sampled_marks(&["c"], &["Hi {{who}}"], &mut marks);
    assert_eq!(marks, vec![Mark::DoubleBrace]);
}

#[test]
fn a_path_is_shown_relative_to_the_catalogues() {
    assert_eq!(
        shown(&parts("/t/package.json"), &parts("/t/apps/web/messages")),
        "../../../package.json"
    );
    assert_eq!(shown(&parts("/t/locales/en.json"), &parts("/t/locales")), "en.json");
    assert_eq!(shown(&parts("/elsewhere/x.json"), &parts("/t/locales")), "../../elsewhere/x.json");
}

#[test]
fn only_a_distinctive_layout_is_evidence() {
    let i18next = Id::I18next.library();
    let layouts = i18next.layouts();
    let shared = layouts
        .iter()
        .find(|layout| layout.directories.is_some())
        .expect("a named layout");
    assert!(distinctive(shared, "locales"));
    assert!(!distinctive(shared, "strings"));
    for layout in Id::FlutterArb.library().layouts() {
        assert!(distinctive(&layout, "anything"));
    }
}
