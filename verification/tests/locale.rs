use i18n_le::locale::{canonicalise, from_prefix, locales_of};

fn locales(names: &[&str]) -> Vec<Option<String>> {
    let owned: Vec<String> = names.iter().map(|name| (*name).to_string()).collect();
    locales_of(&owned).expect("a locale for every name")
}

#[test]
fn a_language_tag_gets_one_spelling() {
    assert_eq!(canonicalise("en").as_deref(), Some("en"));
    assert_eq!(canonicalise("EN").as_deref(), Some("en"));
    assert_eq!(canonicalise("pt-br").as_deref(), Some("pt-BR"));
    assert_eq!(canonicalise("zh-cn").as_deref(), Some("zh-CN"));
    assert_eq!(canonicalise("zh-hans").as_deref(), Some("zh-Hans"));
    assert_eq!(canonicalise("zh-Hant-HK").as_deref(), Some("zh-Hant-HK"));
    assert_eq!(canonicalise("es-419").as_deref(), Some("es-419"));
    assert_eq!(canonicalise("fil").as_deref(), Some("fil"));
}

#[test]
fn what_is_not_a_language_tag() {
    for text in ["l10n", "bundle", "package", "tsconfig", "e", "", "en-", "en-GB-x-private"] {
        assert_eq!(canonicalise(text), None, "{text}");
    }
}

#[test]
fn a_name_alone_is_not_enough_to_decide() {
    assert_eq!(canonicalise("nls").as_deref(), Some("nls"));
    assert_eq!(locales(&["package.nls.json"]), [None]);
    assert_eq!(
        locales(&["package.nls.json", "package.nls.de.json"]),
        [None, Some("de".to_string())]
    );
}

#[test]
fn a_directory_of_bare_locales_reads_as_itself() {
    assert_eq!(
        locales(&["en.json", "pt-BR.json", "zh-CN.json"]),
        [Some("en".to_string()), Some("pt-BR".to_string()), Some("zh-CN".to_string())]
    );
}

#[test]
fn a_shared_prefix_is_not_part_of_the_locale() {
    assert_eq!(
        locales(&["bundle.l10n.json", "bundle.l10n.pt-br.json", "bundle.l10n.zh-cn.json"]),
        [None, Some("pt-BR".to_string()), Some("zh-CN".to_string())]
    );
}

#[test]
fn the_manifest_convention_reads_the_same_way() {
    assert_eq!(
        locales(&["package.nls.json", "package.nls.zh-cn.json"]),
        [None, Some("zh-CN".to_string())]
    );
}

#[test]
fn a_single_shared_segment_works_too() {
    assert_eq!(
        locales(&["messages.en.json", "messages.es.json"]),
        [Some("en".to_string()), Some("es".to_string())]
    );
}

#[test]
fn an_underscore_separates_like_a_dot_does() {
    assert_eq!(
        locales(&["app_en.arb", "app_es.arb", "app_pt_BR.arb"]),
        [Some("en".to_string()), Some("es".to_string()), Some("pt-BR".to_string())]
    );
    assert_eq!(
        locales(&["pt_BR.json", "zh_CN.json"]),
        [Some("pt-BR".to_string()), Some("zh-CN".to_string())]
    );
}

#[test]
fn a_leftover_that_is_not_a_tag_is_refused_by_name() {
    let names = ["package.json".to_string(), "tsconfig.json".to_string()];
    let error = locales_of(&names).expect_err("a refusal");
    assert!(error.contains("package.json"), "{error}");
    assert!(error.contains("not a language tag"), "{error}");
}

#[test]
fn a_leftover_of_several_segments_is_refused_rather_than_joined() {
    let names = ["en.json".to_string(), "fr.CA.extra.json".to_string()];
    assert!(locales_of(&names).is_err());
}

#[test]
fn a_lone_file_is_the_base_catalogue() {
    assert_eq!(locales(&["bundle.l10n.json"]), [None]);
    assert_eq!(locales(&["en.json"]), [None]);
}

#[test]
fn no_files_is_no_locales() {
    assert_eq!(locales_of(&[]).expect("nothing to refuse"), [] as [Option<String>; 0]);
}

#[test]
fn a_known_prefix_reads_one_name_at_a_time() {
    assert_eq!(from_prefix("package.nls.json", "package.nls").expect("a locale"), None);
    assert_eq!(
        from_prefix("package.nls.zh-cn.json", "package.nls").expect("a locale"),
        Some("zh-CN".to_string())
    );
    assert_eq!(
        from_prefix("bundle.l10n.pt-br.json", "bundle.l10n").expect("a locale"),
        Some("pt-BR".to_string())
    );
}

#[test]
fn a_known_prefix_still_refuses_a_leftover_that_is_not_a_tag() {
    assert!(from_prefix("package.nls.backup.json", "package.nls").is_err());
    assert!(from_prefix("something.else.json", "package.nls").is_err());
}

// ---------------------------------------------------------------------
// ---------------------------------------------------------------------

#[test]
fn refusals_say_exactly_what_was_wrong() {
    let names = ["en.json".to_string(), "readme.json".to_string()];
    assert_eq!(
        locales_of(&names).expect_err("a refusal"),
        "readme.json: \"readme\" is not a language tag, so this is not a catalogue set"
    );
}

#[test]
fn a_canonical_tag_is_its_own_spelling() {
    for tag in ["en", "pt-BR", "zh-Hans", "zh-Hant-HK", "es-419", "fil"] {
        assert_eq!(canonicalise(tag).as_deref(), Some(tag));
        let again = canonicalise(tag).expect("a tag");
        assert_eq!(canonicalise(&again), Some(again.clone()));
    }
}

#[test]
fn a_known_prefix_refusal_names_the_prefix() {
    assert_eq!(
        from_prefix("something.else.json", "package.nls").expect_err("a refusal"),
        "something.else.json is not a package.nls catalogue"
    );
    assert_eq!(
        from_prefix("package.nls.backup.json", "package.nls").expect_err("a refusal"),
        "package.nls.backup.json: \"backup\" is not a language tag"
    );
    assert_eq!(
        from_prefix("app_pt_BR.arb", "app").expect_err("an underscore inside a tag"),
        "app_pt_BR.arb: \"pt_BR\" is not a language tag"
    );
    assert_eq!(from_prefix("app_pt-br.arb", "app").expect("a locale"), Some("pt-BR".to_string()));
}
