use i18n_le::layout::{
    describe_shape, fixed, has_extension, namespaced, one_directory, path_precedes, settle,
    shared, Candidate, Located, Reading,
};
use i18n_le::library::{Id, Layout, Shape};

fn candidate(path: &str) -> Candidate {
    let components: Vec<String> =
        path.split('/').filter(|part| !part.is_empty()).map(str::to_string).collect();
    Candidate {
        path: path.to_string(),
        name: components.last().cloned().unwrap_or_default(),
        components,
    }
}

fn layout_of(library: Id, wanted: fn(&Layout) -> bool) -> Layout {
    library.library().layouts().into_iter().find(wanted).expect("a layout")
}

fn names(reading: &Reading) -> Vec<&str> {
    reading.files.iter().map(|file| file.name.as_str()).collect()
}

fn locales(reading: &Reading) -> Vec<Option<&str>> {
    reading.files.iter().map(|file| file.locale.as_deref()).collect()
}

#[test]
fn every_shape_has_a_human_spelling() {
    assert_eq!(describe_shape(Shape::Shared { extension: "arb" }), "a directory of <locale>.arb");
    assert_eq!(
        describe_shape(Shape::Fixed { prefix: "package.nls", extension: "json" }),
        "package.nls.<locale>.json"
    );
    assert_eq!(
        describe_shape(Shape::Namespaced { extension: "json" }),
        "<locale>/<namespace>.json"
    );
    assert!(has_extension("en.json", "json"));
    assert!(!has_extension("en.json", "arb"));
    assert!(!has_extension("json", "json"));
}

#[test]
fn a_shared_set_reads_what_its_names_do_not_share() {
    let layout = layout_of(Id::FlutterArb, |_| true);
    let reading = shared(
        &vec![candidate("/t/l10n/app_en.arb"), candidate("/t/l10n/app_pt_BR.arb")],
        &layout,
    )
    .expect("a reading")
    .expect("files");
    assert_eq!(names(&reading), ["app_en.arb", "app_pt_BR.arb"]);
    assert_eq!(locales(&reading), [Some("en"), Some("pt-BR")]);
    assert_eq!(describe_shape(reading.shape), "a directory of <locale>.arb");
    assert!(!reading.keys_are_source);
}

#[test]
fn a_shared_set_in_two_directories_is_refused() {
    let layout = layout_of(Id::NextIntl, |_| true);
    let files = vec![candidate("/t/a/en.json"), candidate("/t/b/es.json")];
    let expected = "these files are in 2 directories, and a set read by what its names share is \
                    one directory. Audit them one directory at a time.";
    assert_eq!(one_directory(&files).expect_err("a refusal"), expected);
    assert_eq!(shared(&files, &layout).expect_err("a refusal"), expected);
    assert!(shared(&Vec::new(), &layout).expect("nothing").is_none());
}

#[test]
fn a_name_that_is_not_a_locale_is_refused_by_name() {
    let layout = layout_of(Id::NextIntl, |_| true);
    let error = shared(
        &vec![candidate("/t/package.json"), candidate("/t/tsconfig.json")],
        &layout,
    )
    .expect_err("a refusal");
    assert_eq!(
        error,
        "package.json: \"package\" is not a language tag, so this is not a catalogue set"
    );
}

#[test]
fn a_fixed_prefix_set_may_span_two_directories() {
    let layout = layout_of(Id::VscodeL10n, |layout| {
        describe_shape(layout.shape) == "package.nls.<locale>.json"
    });
    let reading = fixed(
        &vec![
            candidate("/t/src/i18n/package.nls.de.json"),
            candidate("/t/src/i18n/package.nls.ja.json"),
        ],
        Some(candidate("/t/package.nls.json")),
        "package.nls",
        "json",
        &layout,
    )
    .expect("a reading")
    .expect("files");
    assert_eq!(names(&reading), ["package.nls.json", "package.nls.de.json", "package.nls.ja.json"]);
    assert_eq!(locales(&reading), [None, Some("de"), Some("ja")]);
    assert!(!reading.keys_are_source, "an nls key is an identifier");
}

#[test]
fn a_fixed_prefix_set_reads_its_own_prefix_only() {
    let layout = layout_of(Id::VscodeL10n, |layout| {
        describe_shape(layout.shape) == "bundle.l10n.<locale>.json"
    });
    let reading = fixed(
        &vec![
            candidate("/t/l10n/bundle.l10n.json"),
            candidate("/t/l10n/bundle.l10n.pt-br.json"),
            candidate("/t/l10n/other.json"),
        ],
        None,
        "bundle.l10n",
        "json",
        &layout,
    )
    .expect("a reading")
    .expect("files");
    assert_eq!(names(&reading), ["bundle.l10n.json", "bundle.l10n.pt-br.json"]);
    assert_eq!(locales(&reading), [None, Some("pt-BR")]);
    assert!(reading.keys_are_source, "a bundle key is the English");

    let nothing = fixed(&vec![candidate("/t/l10n/en.json")], None, "bundle.l10n", "json", &layout);
    assert!(nothing.expect("no refusal").is_none());

    let error = fixed(
        &vec![candidate("/t/l10n/bundle.l10n.backup.json")],
        None,
        "bundle.l10n",
        "json",
        &layout,
    )
    .expect_err("a refusal");
    assert_eq!(error, "bundle.l10n.backup.json: \"backup\" is not a language tag");
}

#[test]
fn a_namespaced_set_reads_the_directory_as_the_locale() {
    let layout = layout_of(Id::I18next, |layout| layout.directories.is_none());
    let groups = vec![
        ("de".to_string(), vec![candidate("/t/locales/de/common.json")]),
        ("en".to_string(), vec![candidate("/t/locales/en/common.json")]),
    ];
    let reading = namespaced(&groups, "json", &layout).expect("a reading").expect("files");
    assert_eq!(names(&reading), ["de/common.json", "en/common.json"]);
    assert_eq!(locales(&reading), [Some("de"), Some("en")]);
    assert_eq!(
        reading.files[0],
        Located {
            path: "/t/locales/de/common.json".to_string(),
            name: "de/common.json".to_string(),
            locale: Some("de".to_string()),
        }
    );
}

#[test]
fn several_namespaces_are_named_in_order_and_refused() {
    let layout = layout_of(Id::I18next, |layout| layout.directories.is_none());
    let groups = vec![
        (
            "de".to_string(),
            vec![candidate("/t/locales/de/errors.json"), candidate("/t/locales/de/common.json")],
        ),
        ("en".to_string(), vec![candidate("/t/locales/en/common.json")]),
    ];
    assert_eq!(
        namespaced(&groups, "json", &layout).expect_err("a refusal"),
        "this set has 2 namespaces (common.json, errors.json) and a namespace is its own set. \
         Name one namespace's files."
    );
    assert!(namespaced(&Vec::new(), "json", &layout).expect("nothing").is_none());
}

#[test]
fn paths_are_ordered_component_by_component() {
    let parts = |path: &str| -> Vec<String> {
        path.split('/').filter(|part| !part.is_empty()).map(str::to_string).collect()
    };
    assert!(path_precedes(&parts("/t/package.nls.json"), &parts("/t/src/i18n/a.json")));
    assert!(!path_precedes(&parts("/t/src/a.json"), &parts("/t/package.nls.json")));
    assert!(path_precedes(&parts("/t/a"), &parts("/t/a/b")));
    assert!(!path_precedes(&parts("/t/a"), &parts("/t/a")));
}

#[test]
fn the_first_layout_that_reads_the_files_wins() {
    let library = Id::I18next.library();
    let layouts = library.layouts();
    let read = Reading {
        files: vec![Located {
            path: "/t/locales/en.json".to_string(),
            name: "en.json".to_string(),
            locale: Some("en".to_string()),
        }],
        shape: layouts[1].shape,
        keys_are_source: false,
    };
    let settled = settle(Id::I18next, vec![Err("not this one".to_string()), Ok(Some(read))], false)
        .expect("a reading");
    assert_eq!(names(&settled), ["en.json"]);

    let refused = settle(Id::I18next, vec![Err("first".to_string()), Err("last".to_string())], false);
    assert_eq!(refused.expect_err("a refusal"), "last");

    let empty = settle(Id::I18next, vec![Ok(None), Ok(None)], true).expect("an empty set");
    assert!(empty.files.is_empty());
    assert_eq!(describe_shape(empty.shape), describe_shape(layouts[0].shape));

    let unread = settle(Id::I18next, vec![Ok(None), Ok(None)], false).expect_err("a refusal");
    assert_eq!(
        unread,
        "i18next was identified, but none of its layouts reads the files here \
         (<locale>/<namespace>.json, a directory of <locale>.json)."
    );
}
