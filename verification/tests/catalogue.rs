use std::fmt;

use serde::de::{Deserialize, Deserializer, IgnoredAny, MapAccess, SeqAccess, Visitor};

use i18n_le::catalogue::{parse, without_byte_order_mark, Node, Parsed, Shape};

/// A JSON document read into the library's `Node`, every pair kept.
struct Doc(Node);

struct DocVisitor;

impl<'de> Visitor<'de> for DocVisitor {
    type Value = Doc;

    fn expecting(&self, formatter: &mut fmt::Formatter) -> fmt::Result {
        formatter.write_str("a JSON value")
    }

    fn visit_str<E>(self, value: &str) -> Result<Doc, E> {
        Ok(Doc(Node::Text(value.to_string())))
    }

    fn visit_string<E>(self, value: String) -> Result<Doc, E> {
        Ok(Doc(Node::Text(value)))
    }

    fn visit_bool<E>(self, _: bool) -> Result<Doc, E> {
        Ok(Doc(Node::Other))
    }

    fn visit_i64<E>(self, _: i64) -> Result<Doc, E> {
        Ok(Doc(Node::Other))
    }

    fn visit_u64<E>(self, _: u64) -> Result<Doc, E> {
        Ok(Doc(Node::Other))
    }

    fn visit_f64<E>(self, _: f64) -> Result<Doc, E> {
        Ok(Doc(Node::Other))
    }

    fn visit_unit<E>(self) -> Result<Doc, E> {
        Ok(Doc(Node::Other))
    }

    fn visit_none<E>(self) -> Result<Doc, E> {
        Ok(Doc(Node::Other))
    }

    fn visit_seq<A: SeqAccess<'de>>(self, mut sequence: A) -> Result<Doc, A::Error> {
        while sequence.next_element::<IgnoredAny>()?.is_some() {}
        Ok(Doc(Node::Other))
    }

    fn visit_map<A: MapAccess<'de>>(self, mut map: A) -> Result<Doc, A::Error> {
        let mut entries = Vec::new();
        while let Some((key, value)) = map.next_entry::<String, Doc>()? {
            entries.push((key, value.0));
        }
        Ok(Doc(Node::Object(entries)))
    }
}

impl<'de> Deserialize<'de> for Doc {
    fn deserialize<D: Deserializer<'de>>(deserializer: D) -> Result<Self, D::Error> {
        deserializer.deserialize_any(DocVisitor)
    }
}

fn read(content: &str) -> Result<Parsed, String> {
    let content = without_byte_order_mark(content);
    let doc: Doc = serde_json::from_str(content).map_err(|error| error.to_string())?;
    parse(&doc.0)
}


fn keys(content: &str) -> Vec<String> {
    read(content).expect("parses").entries.into_iter().map(|entry| entry.key).collect()
}

#[test]
fn a_flat_catalogue_yields_its_keys() {
    assert_eq!(keys(r#"{"a":"one","b":"two"}"#), ["a", "b"]);
}

#[test]
fn a_nested_catalogue_flattens_to_dotted_paths() {
    assert_eq!(
        keys(r#"{"a":{"b":{"c":"x"}}}"#),
        ["a", "a.b", "a.b.c"],
        "the objects on the way down are entries too"
    );
    let nested: Vec<String> = read(r#"{"a":{"b":"x"}}"#)
        .expect("parses")
        .entries
        .into_iter()
        .filter(|entry| entry.shape == Shape::Text)
        .map(|entry| entry.key)
        .collect();
    assert_eq!(nested, ["a.b"]);
    assert_eq!(keys(r#"{"a.b":"x"}"#), ["a.b"]);
}

#[test]
fn a_duplicate_key_is_reported_and_the_last_value_wins() {
    let parsed = read(r#"{"a":"first","b":"other","a":"second"}"#).expect("parses");
    assert_eq!(parsed.duplicates.len(), 1);
    assert_eq!(parsed.duplicates[0].key, "a");
    assert_eq!(parsed.duplicates[0].occurrences, 2);
    assert_eq!(
        parsed.entries[0].text.as_deref(),
        Some("second"),
        "the runtime would read the last one"
    );
    assert_eq!(keys(r#"{"a":"first","b":"o","a":"second"}"#), ["a", "b"]);
}

#[test]
fn a_duplicate_nested_key_is_named_by_its_path() {
    let parsed = read(r#"{"menu":{"open":"a","open":"b"}}"#).expect("parses");
    assert_eq!(parsed.duplicates[0].key, "menu.open");
}

#[test]
fn the_shape_of_every_path_is_recorded() {
    let parsed = read(r#"{"t":"x","o":{"n":"y"},"n":1,"a":[1,2],"z":null}"#).expect("parses");
    let shapes: Vec<(String, Shape)> =
        parsed.entries.into_iter().map(|entry| (entry.key, entry.shape)).collect();
    assert_eq!(
        shapes,
        [
            ("t".to_string(), Shape::Text),
            ("o".to_string(), Shape::Object),
            ("o.n".to_string(), Shape::Text),
            ("n".to_string(), Shape::Other),
            ("a".to_string(), Shape::Other),
            ("z".to_string(), Shape::Other),
        ]
    );
}

#[test]
fn metadata_keys_are_read_rather_than_dropped() {
    assert_eq!(
        keys(r#"{"@@locale":"es","greeting":"Hola","@greeting":{"description":"x"}}"#),
        ["@@locale", "greeting", "@greeting", "@greeting.description"]
    );
}

#[test]
fn a_leading_byte_order_mark_is_not_part_of_the_document() {
    assert_eq!(keys("\u{feff}{\"a\":\"x\"}"), ["a"]);
}

#[test]
fn every_scalar_shape_is_read_as_neither_text_nor_object() {
    let parsed = read(r#"{"i":-3,"u":7,"f":1.5,"t":true,"f2":false,"z":null,"a":[1,{"b":"x"}]}"#)
        .expect("parses");
    let shapes: Vec<Shape> = parsed.entries.iter().map(|entry| entry.shape).collect();
    assert_eq!(shapes, [Shape::Other; 7]);
}

#[test]
fn a_document_that_is_not_an_object_is_refused() {
    assert!(read("[1,2]").is_err());
    assert!(read("\"just a string\"").is_err());
}

#[test]
fn malformed_json_is_refused_rather_than_guessed_at() {
    assert!(read("{\"a\":").is_err());
}

#[test]
fn a_document_nested_past_the_readers_limit_is_refused_rather_than_crashing() {
    let depth = 2_000;
    let document = format!("{}\"leaf\"{}", "{\"a\":".repeat(depth), "}".repeat(depth));
    assert!(read(&document).is_err());
}

#[test]
fn a_key_repeated_many_times_is_counted_once() {
    let repeats = 500;
    let pairs: Vec<String> = (0..repeats).map(|n| format!("\"a\":\"{n}\"")).collect();
    let parsed = read(&format!("{{{}}}", pairs.join(","))).expect("parses");
    assert_eq!(parsed.entries.len(), 1);
    assert_eq!(parsed.entries[0].text.as_deref(), Some("499"));
    assert_eq!(parsed.duplicates.len(), 1);
    assert_eq!(parsed.duplicates[0].occurrences, repeats);
}

#[test]
fn an_empty_catalogue_yields_nothing() {
    assert_eq!(read("{}").expect("parses"), Parsed { entries: Vec::new(), duplicates: Vec::new() });
}

#[test]
fn a_refusal_names_the_position_and_never_the_content() {
    for document in [
        r#"{"a":"Bienvenido de nuevo""#,
        r#"{"a":"Bienvenido", }"#,
        r#"{"a": Bienvenido}"#,
        r#"{"a":"Bienvenido"} Bienvenido"#,
        "{\"a\":\"Bienv\u{1}enido\"}",
        r#"{"a":"Bienvenido\q"}"#,
        r#"{"a":"Bienvenido\ud800"}"#,
        r#"{"Bienvenido"}"#,
        r#"{a:"Bienvenido"}"#,
        r#"{"a":'Bienvenido'}"#,
        r#"{"a":"Bienvenido",,}"#,
        r#"{"a":1e999999,"b":"Bienvenido"}"#,
        r#"["Bienvenido"]"#,
        r#""Bienvenido""#,
    ] {
        let refusal = read(document).expect_err(document);
        assert!(!refusal.contains("Bienvenido"), "{refusal}");
    }
}

/// The refusal for a document that is not an object says what it wanted.
#[test]
fn a_non_object_refusal_says_what_a_catalogue_is() {
    assert_eq!(read("[1]").expect_err("a refusal"), "a catalogue must be a JSON object");
}

/// A byte order mark is taken off once, and only at the start.
#[test]
fn only_a_leading_byte_order_mark_is_dropped() {
    assert_eq!(without_byte_order_mark("\u{feff}{}"), "{}");
    assert_eq!(without_byte_order_mark("{}\u{feff}"), "{}\u{feff}");
    assert_eq!(without_byte_order_mark("\u{feff}"), "");
}

/// Three occurrences across nested and flat spellings: the nested path
/// and the flat key are the same path.
#[test]
fn a_duplicate_inside_an_object_counts_every_occurrence() {
    let parsed = read(r#"{"m":{"k":"1","k":"2","k":"3"}}"#).expect("parses");
    assert_eq!(parsed.duplicates[0].key, "m.k");
    assert_eq!(parsed.duplicates[0].occurrences, 3);
    assert_eq!(parsed.entries[1].text.as_deref(), Some("3"));
}

#[test]
fn a_nested_object_reads_as_its_spelled_out_names() {
    let nested = read(r#"{"a":{"b":"x","c":{"d":"y"},"b":"z"}}"#).expect("parses");
    let flat = read(r#"{"a.b":"x","a.c":{"d":"y"},"a.b":"z"}"#).expect("parses");
    assert_eq!(nested.entries[0].key, "a");
    assert_eq!(nested.entries[0].shape, Shape::Object);
    assert_eq!(nested.entries[1..], flat.entries[..]);
    assert_eq!(nested.duplicates, flat.duplicates);
    assert_eq!(flat.duplicates.len(), 1);
    assert_eq!(flat.duplicates[0].key, "a.b");
}
