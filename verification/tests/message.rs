use i18n_le::library::{Grammar, Id, Interpolation, Mark};
use i18n_le::message::{key_marks, marks, parse, plural_base, Construct};

fn grammar(id: Id) -> Grammar {
    id.library().grammar()
}

fn tokens(id: Id, text: &str) -> Vec<String> {
    parse(grammar(id), text).tokens.into_iter().map(|token| token.name).collect()
}

fn foreign(id: Id, text: &str) -> Vec<Construct> {
    parse(grammar(id), text).foreign.into_iter().map(|one| one.construct).collect()
}

#[test]
fn each_library_reads_its_own_interpolation() {
    assert_eq!(tokens(Id::I18next, "Hello {{name}}"), ["name"]);
    assert_eq!(tokens(Id::NextIntl, "Hello {name}"), ["name"]);
    assert_eq!(tokens(Id::VscodeL10n, "Rank {0} of {1}"), ["0", "1"]);
    assert_eq!(tokens(Id::FlutterArb, "Hello {name}"), ["name"]);
}

#[test]
fn a_dotted_or_hyphenated_name_is_one_token() {
    assert_eq!(tokens(Id::I18next, "{{user.first-name}}"), ["user.first-name"]);
}

#[test]
fn the_same_bytes_read_differently_under_each_library() {
    assert_eq!(tokens(Id::NextIntl, "Hello {name}"), ["name"]);
    assert_eq!(tokens(Id::I18next, "Hello {name}"), [] as [String; 0]);
    assert_eq!(tokens(Id::VscodeL10n, "Hello {name}"), [] as [String; 0]);
    assert_eq!(parse(grammar(Id::I18next), "Hello {name}").others, [Interpolation::SingleBrace]);
}

#[test]
fn i18next_trims_inside_its_braces_and_others_do_not() {
    assert_eq!(tokens(Id::I18next, "Hello {{ name }}"), ["name"]);
    assert_eq!(tokens(Id::NextIntl, "Hello { name }"), ["name"]);
    assert_eq!(tokens(Id::VscodeL10n, "Hello { 0 }"), [] as [String; 0], "VS Code does not trim");
}

#[test]
fn an_icu_literal_brace_is_never_a_token() {
    for id in [Id::NextIntl, Id::FlutterArb, Id::VscodeL10n] {
        assert_eq!(tokens(id, "use {{ to open"), [] as [String; 0], "{id:?}");
        assert_eq!(foreign(id, "use {{ to open"), [], "{id:?}");
    }
    assert_eq!(tokens(Id::I18next, "a }} b"), [] as [String; 0]);
}

#[test]
fn a_percentage_in_prose_is_not_printf() {
    for prose in ["100%% off", "50% off", "a % b", "90%-os lefedettség", "%90 oranında", "up to 20%!"] {
        assert_eq!(foreign(Id::I18next, prose), [], "{prose}");
    }
    assert_eq!(foreign(Id::I18next, "Hello %s"), [Construct::Printf]);
    assert_eq!(foreign(Id::I18next, "Rank %1$s"), [Construct::Printf]);
}

#[test]
fn nesting_is_a_key_reference_where_the_library_writes_it() {
    let parsed = parse(grammar(Id::I18next), "$t(metrics.window.{{timeframe}})");
    assert_eq!(parsed.foreign, [], "not foreign under i18next");
    assert_eq!(parsed.tokens[0].name, "timeframe");
}

#[test]
fn nesting_is_foreign_where_the_library_does_not() {
    assert_eq!(foreign(Id::NextIntl, "$t(common.hello)"), [Construct::Nesting]);
}

#[test]
fn an_icu_plural_is_foreign_where_icu_is_not_native() {
    let parsed = parse(grammar(Id::I18next), "{count, plural, one {# item} other {# items}}");
    assert_eq!(
        parsed.foreign.iter().map(|f| f.construct).collect::<Vec<_>>(),
        [Construct::IcuArgument]
    );
    assert_eq!(parsed.tokens, []);
}

#[test]
fn an_icu_plural_is_one_token_where_it_is_native() {
    assert_eq!(tokens(Id::NextIntl, "{count, plural, one {# item} other {# items}}"), ["count"]);
    assert_eq!(
        tokens(Id::NextIntl, "{count, plural, one {# item}"),
        ["count"],
        "an unclosed construct must not run away"
    );
}

#[test]
fn every_foreign_construct_is_named() {
    assert_eq!(foreign(Id::I18next, "Hello { $name }"), [Construct::Fluent]);
    assert_eq!(foreign(Id::I18next, "Hello ${name}"), [Construct::TemplateLiteral]);
    let offsets: Vec<usize> =
        parse(grammar(Id::I18next), "Hello %s and %d").foreign.into_iter().map(|one| one.offset).collect();
    assert_eq!(offsets, [6, 13]);
}

#[test]
fn a_multibyte_message_parses_and_the_offset_is_a_byte_offset() {
    assert_eq!(tokens(Id::I18next, "Привет {{name}}"), ["name"]);
    assert_eq!(parse(grammar(Id::I18next), "日本語 %s").foreign[0].offset, 10);
}

#[test]
fn a_lone_brace_in_prose_is_not_a_finding() {
    for id in [Id::I18next, Id::NextIntl, Id::VscodeL10n] {
        assert_eq!(foreign(id, "write {} for an empty object"), [], "{id:?}");
        assert_eq!(tokens(id, "write {} for an empty object"), [] as [String; 0], "{id:?}");
    }
}

#[test]
fn a_plural_variant_folds_onto_its_base() {
    assert_eq!(plural_base("item_one"), "item");
    assert_eq!(plural_base("item_other"), "item");
    assert_eq!(plural_base("item"), "item");
    assert_eq!(plural_base("nav.home"), "nav.home");
}

#[test]
fn the_identification_scan_reads_every_mark() {
    assert_eq!(marks("Hello {{name}}"), [Mark::DoubleBrace]);
    assert_eq!(marks("{count, plural, other {#}}"), [Mark::IcuArgument]);
    assert_eq!(marks("Rank {0}"), [Mark::Positional]);
    assert_eq!(marks("Hello {name}"), [Mark::SingleBrace]);
    assert_eq!(marks("$t(a.b)"), [Mark::DollarT]);
    assert_eq!(marks("nothing here"), []);
    assert_eq!(marks("use {{ to open"), [Mark::DoubleBrace]);
}

#[test]
fn a_plural_family_is_a_mark_and_a_lone_variant_is_not() {
    assert!(key_marks(&["item_one", "item_other"]).contains(&Mark::PluralKeySuffix));
    assert!(!key_marks(&["step_one", "title"]).contains(&Mark::PluralKeySuffix));
}

#[test]
fn arb_metadata_needs_both_halves() {
    assert!(
        key_marks(&["@@locale", "greeting", "@greeting"]).contains(&Mark::ArbMetadata),
        "the document metadata and a sibling"
    );
    assert!(!key_marks(&["@@locale", "greeting"]).contains(&Mark::ArbMetadata));
    assert!(!key_marks(&["greeting", "@greeting"]).contains(&Mark::ArbMetadata));
}

#[test]
fn sentence_keys_are_a_mark_and_dotted_identifiers_are_not() {
    let sentences = ["Save file", "No catalogues found", "Extract"];
    assert!(key_marks(&sentences).contains(&Mark::SentenceKeys));
    let identifiers = ["manifest.command.title", "nav.home"];
    assert!(!key_marks(&identifiers).contains(&Mark::SentenceKeys));
}

// ---------------------------------------------------------------------
// ---------------------------------------------------------------------

#[test]
fn every_plural_category_folds() {
    for suffix in ["_zero", "_one", "_two", "_few", "_many", "_other"] {
        assert_eq!(plural_base(&format!("cart.items{suffix}")), "cart.items");
    }
    assert_eq!(plural_base("_one"), "");
}

#[test]
fn a_mark_is_reported_once_however_often_it_appears() {
    assert_eq!(marks("{{a}} and {{b}} and {{c}}"), [Mark::DoubleBrace]);
    assert_eq!(marks("{{a}} {0} {{b}}"), [Mark::DoubleBrace, Mark::Positional]);
}
