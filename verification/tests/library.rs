use i18n_le::library::{all, names, Id, Manifest, Mark, Shape, Strength};

#[test]
fn every_library_round_trips_through_its_name() {
    for library in all() {
        let name = library.id.as_str();
        assert_eq!(Id::parse(name), Some(library.id), "{name}");
        assert_eq!(Id::parse(name).expect("an id").library().id, library.id);
    }
    assert_eq!(Id::parse("gettext"), None);
}

#[test]
fn the_four_that_must_work_are_all_here() {
    let ids: Vec<&str> = names();
    for expected in ["i18next", "next-intl", "vscode-l10n", "flutter-arb"] {
        assert!(ids.contains(&expected), "{expected} is missing");
    }
}

#[test]
fn every_library_can_reach_an_identification() {
    for library in all() {
        let voting = library.signatures().iter().any(|s| s.strength != Strength::Weak);
        let classes = usize::from(!library.packages().is_empty())
            + usize::from(!library.configs().is_empty())
            + usize::from(!library.layouts().is_empty())
            + usize::from(voting)
            + usize::from(!library.calls().is_empty());
        assert!(classes >= 2, "{:?} can never be identified", library.id);
    }
}

#[test]
fn every_id_variant_has_a_row() {
    let every = [Id::I18next, Id::NextIntl, Id::VscodeL10n, Id::FlutterArb];
    for id in every {
        match id {
            Id::I18next | Id::NextIntl | Id::VscodeL10n | Id::FlutterArb => {}
        }
        assert_eq!(id.library().id, id, "{id:?} has no row");
    }
    assert_eq!(all().len(), every.len(), "a row nothing names");
}

#[test]
fn no_two_libraries_claim_the_same_decisive_signature() {
    let mut seen: Vec<Mark> = Vec::new();
    for library in all() {
        for signature in library.signatures().iter().filter(|s| s.strength == Strength::Decisive) {
            assert!(!seen.contains(&signature.mark), "{:?} is claimed twice", signature.mark);
            seen.push(signature.mark);
        }
    }
}

#[test]
fn arb_metadata_takes_its_children_with_it() {
    let arb = Id::FlutterArb.library();
    assert!(arb.is_metadata("@@locale"));
    assert!(arb.is_metadata("@greeting"));
    assert!(arb.is_metadata("@greeting.description"));
    assert!(!arb.is_metadata("greeting"));

    let other = Id::I18next.library();
    assert!(other.is_metadata("@@locale"));
    assert!(!other.is_metadata("@greeting"), "somebody else's naming");
}

#[test]
fn the_two_vscode_layouts_disagree_about_what_a_key_is() {
    let vscode = Id::VscodeL10n.library();
    let layouts = vscode.layouts();
    let bundle = layouts
        .iter()
        .find(|layout| matches!(layout.shape, Shape::Fixed { prefix: "bundle.l10n", .. }))
        .expect("the bundle layout");
    let nls = layouts
        .iter()
        .find(|layout| matches!(layout.shape, Shape::Fixed { prefix: "package.nls", .. }))
        .expect("the manifest layout");
    assert!(bundle.keys_are_source);
    assert!(!nls.keys_are_source);
}

#[test]
fn only_a_known_break_carries_a_version_floor() {
    let i18next = Id::I18next.library();
    assert_eq!(
        i18next.package("i18next", Manifest::Npm).expect("the package").breaking_below,
        Some(23)
    );
    assert_eq!(
        i18next.package("react-i18next", Manifest::Npm).expect("the package").breaking_below,
        None
    );
}

#[test]
fn every_mark_has_its_kebab_name() {
    let spelled: Vec<&str> = [
        Mark::DoubleBrace,
        Mark::IcuArgument,
        Mark::Positional,
        Mark::SingleBrace,
        Mark::DollarT,
        Mark::PluralKeySuffix,
        Mark::ArbMetadata,
        Mark::SentenceKeys,
    ]
    .iter()
    .map(|mark| mark.as_str())
    .collect();
    assert_eq!(
        spelled,
        [
            "double-brace",
            "icu-argument",
            "positional",
            "single-brace",
            "dollar-t",
            "plural-key-suffix",
            "arb-metadata",
            "sentence-keys"
        ]
    );
}

#[test]
fn a_config_is_matched_by_stem_and_extension() {
    let flutter = Id::FlutterArb.library();
    assert!(flutter.writes_config("l10n", "yaml"));
    assert!(!flutter.writes_config("l10n", "json"));
    assert!(Id::I18next.library().writes_config("i18next-parser.config", "js"));
}
