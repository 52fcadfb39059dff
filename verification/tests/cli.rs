use i18n_le::audit::{Evidence, Finding, Kind, Severity};
use i18n_le::cli::{describe, flags, kind, parse, plural, USAGE};
use i18n_le::library::{names, Id};
use i18n_le::scan::FailOn;

fn args(words: &[&str]) -> Vec<String> {
    words.iter().map(|word| word.to_string()).collect()
}

#[test]
fn every_documented_flag_is_parsed_and_the_reverse() {
    let mut documented: Vec<&str> = USAGE
        .split_whitespace()
        .filter(|word| word.starts_with("--"))
        .map(|word| word.trim_end_matches([',', '.', ':', ';']))
        .filter(|word| !matches!(*word, "--version" | "--help"))
        .collect();
    documented.sort_unstable();
    documented.dedup();

    let mut implemented = flags();
    implemented.sort_unstable();
    assert_eq!(documented, implemented);
}

#[test]
fn the_parser_accepts_every_flag_it_lists() {
    for flag in flags() {
        let line: Vec<String> = match flag {
            "--system" => args(&[flag, "i18next", "dir"]),
            "--source" => args(&[flag, "en", "dir"]),
            "--fail-on" => args(&[flag, "any", "dir"]),
            _ => args(&[flag, "dir"]),
        };
        assert!(parse(&line).is_ok(), "{flag}");
    }
}

#[test]
fn an_unknown_flag_is_refused_rather_than_ignored() {
    let error = parse(&args(&["--surce", "en", "dir"])).expect_err("a refusal");
    assert!(error.contains("--surce"), "{error}");
}

#[test]
fn a_flag_with_no_value_is_refused() {
    for flag in ["--system", "--source", "--fail-on"] {
        assert!(parse(&args(&[flag])).is_err(), "{flag}");
    }
}

#[test]
fn a_library_this_does_not_read_is_refused_and_the_known_ones_are_listed() {
    let error = parse(&args(&["--system", "gettext", "dir"])).expect_err("a refusal");
    assert!(error.contains("gettext"), "{error}");
    for known in names() {
        assert!(error.contains(known), "{error} omits {known}");
    }
}

#[test]
fn a_fail_on_value_that_is_not_one_is_refused_by_name() {
    let error = parse(&args(&["--fail-on", "everything", "dir"])).expect_err("refusal");
    assert!(error.contains("everything"), "{error}");
}

#[test]
fn naming_nothing_is_refused() {
    let error = parse(&Vec::new()).expect_err("a refusal");
    assert!(error.contains("name the directory"), "{error}");
}

#[test]
fn cli_no_flag_offers_to_print_a_value() {
    for attempt in [
        "--show-values",
        "--values",
        "--print-strings",
        "--fix",
        "--write",
    ] {
        assert!(parse(&args(&[attempt, "dir"])).is_err(), "{attempt} was accepted");
    }
    for word in ["--show-values", "translate for you", "rewrite"] {
        assert!(!USAGE.contains(word), "the usage text offers {word}");
    }
}

#[test]
fn the_usage_text_states_the_exit_codes_and_the_identification_rule() {
    for code in ["0", "1", "2"] {
        assert!(USAGE.contains(code), "exit code {code} is undocumented");
    }
    assert!(
        USAGE.contains("Two agreeing is an identification"),
        "the rule is unexplained"
    );
    assert!(USAGE.contains("call sites"), "the fifth class is unsaid");
}

#[test]
fn a_finding_line_carries_tokens_and_never_a_string() {
    let line = describe(&Finding {
        severity: Severity::Error,
        kind: Kind::PlaceholderNameMismatch,
        file: "es.json".to_string(),
        key: "metrics.window".to_string(),
        evidence: Some(Evidence::Tokens {
            source: vec!["timeframe".to_string()],
            target: vec!["periodo".to_string()],
        }),
    });
    assert_eq!(
        line,
        "es.json: placeholder renamed metrics.window (timeframe became periodo)"
    );
}

#[test]
fn a_full_command_line_is_read_flag_by_flag() {
    let cli = parse(&args(&[
        "--system",
        "next-intl",
        "--source",
        "en-US",
        "--keys-are-source",
        "--fail-on",
        "untranslated",
        "--strict",
        "messages",
        "extra",
    ]))
    .expect("a question");
    assert_eq!(cli.inputs, args(&["messages", "extra"]));
    assert_eq!(cli.scan.source.as_deref(), Some("en-US"));
    assert!(cli.scan.keys_are_source);
    assert!(cli.strict);
    assert!(matches!(cli.fail_on, FailOn::Untranslated));
    assert_eq!(Id::parse("next-intl").map(|id| id.as_str()), Some("next-intl"));
}

#[test]
fn a_bare_command_line_asks_for_the_defaults() {
    let cli = parse(&args(&["dir"])).expect("a question");
    assert_eq!(cli.inputs, args(&["dir"]));
    assert_eq!(cli.scan.source, None);
    assert!(!cli.scan.keys_are_source);
    assert!(!cli.strict);
    assert!(matches!(cli.fail_on, FailOn::Findings));
}

#[test]
fn counts_and_kinds_are_spelled_for_a_person() {
    assert_eq!(plural(1, "finding", "findings"), "1 finding");
    assert_eq!(plural(3, "finding", "findings"), "3 findings");
    assert_eq!(plural(0, "finding", "findings"), "0 findings");
    assert_eq!(kind(Kind::MissingKey), "missing");
    let line = describe(&Finding {
        severity: Severity::Warning,
        kind: Kind::DuplicateKeyWithinFile,
        file: "de.json".to_string(),
        key: "title".to_string(),
        evidence: Some(Evidence::Occurrences { occurrences: 2 }),
    });
    assert_eq!(line, "de.json: duplicate title (defined 2×)");
}

#[test]
fn the_last_value_of_a_flag_is_the_one_taken() {
    let cli = parse(&args(&["--fail-on", "any", "--source", "en", "dir", "--fail-on", "untranslated", "--source", "de"]))
        .expect("a question");
    assert!(matches!(cli.fail_on, FailOn::Untranslated));
    assert_eq!(cli.scan.source.as_deref(), Some("de"));
    assert_eq!(cli.inputs, args(&["dir"]));
}

#[test]
fn the_token_after_a_flag_that_takes_a_value_is_its_value() {
    let cli = parse(&args(&["--source", "--strict", "dir"])).expect("a question");
    assert_eq!(cli.scan.source.as_deref(), Some("--strict"));
    assert!(!cli.strict);
    assert_eq!(cli.inputs, args(&["dir"]));
    assert!(parse(&args(&["--strict", "--keys-are-source"])).is_err());
}
