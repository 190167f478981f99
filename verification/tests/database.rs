use hdd::parser::{database, Entry};
use hdd::presets::{split, Directive};

fn fields(e: &Entry) -> (&str, &str, &str, &str, &str) {
    (&e.family, &e.model, &e.firmware, &e.warning, &e.presets)
}

#[test]
fn single_entry() {
    let text = r#"{"Fam","Model.*","FW","warn","-v 9,minutes"},"#;
    let es = database(text).unwrap();
    assert_eq!(es.len(), 1);
    assert_eq!(fields(&es[0]), ("Fam", "Model.*", "FW", "warn", "-v 9,minutes"));
}

#[test]
fn trailing_comma_optional() {
    let with = database(r#"{"a","m","","",""},"#).unwrap();
    let without = database(r#"{"a","m","","",""}"#).unwrap();
    assert_eq!(with, without);
}

#[test]
fn several_entries_in_order() {
    let text = r#"
        {"one","m1","","",""},
        {"two","m2","","",""},
        {"three","m3","","",""}
    "#;
    let es = database(text).unwrap();
    let families: Vec<&str> = es.iter().map(|e| e.family.as_str()).collect();
    assert_eq!(families, ["one", "two", "three"]);
}

#[test]
fn comments_and_whitespace() {
    let text = "// leading comment\n/* block\ncomment */ {\"f\" /* inner */, \"m\", \"\", \"\", \"\"}, // trailing\n";
    let es = database(text).unwrap();
    assert_eq!(es.len(), 1);
    assert_eq!(es[0].family, "f");
}

#[test]
fn adjacent_literals_concatenate() {
    let text = "{\"fam\" \"ily\",\n\t\"mod\" /* wrapped */ \"el\",\"\",\"\",\"\"},";
    let es = database(text).unwrap();
    assert_eq!(es[0].family, "family");
    assert_eq!(es[0].model, "model");
}

#[test]
fn escape_sequences() {
    let text = r#"{"a\"b","c\\d","e\nf","g\th","i\r\'j"},"#;
    let es = database(text).unwrap();
    assert_eq!(es[0].family, "a\"b");
    assert_eq!(es[0].model, "c\\d");
    assert_eq!(es[0].firmware, "e\nf");
    assert_eq!(es[0].warning, "g\th");
    assert_eq!(es[0].presets, "i\r'j");
}

#[test]
fn reserved_dollar_families_dropped() {
    let text = r#"
        {"$marker","x","","",""},
        {"kept","y","","",""},
        {"$another","z","","",""},
    "#;
    let es = database(text).unwrap();
    assert_eq!(es.len(), 1);
    assert_eq!(es[0].family, "kept");
}

#[test]
fn unterminated_string_fails() {
    assert!(database(r#"{"Fam","Model"#).is_err());
    assert!(database("{\"Fam\",\"Mod\nel\",\"\",\"\",\"\"},").is_err());
}

#[test]
fn malformed_texts_fail() {
    assert!(database("").is_err());
    assert!(database("   // only a comment\n").is_err());
    assert!(database(r#"{"a","b","c","d"},"#).is_err()); // four fields
    assert!(database(r#"{"a","b","c","d","e","f"},"#).is_err()); // six fields
    assert!(database(r#"{"a","b","c","d","e"} trailing"#).is_err());
    assert!(database(r#"{"a","b","c","d","e"} {"f","g","h","i","j"}"#).is_err()); // no comma
    assert!(database(r#"{"a\qb","m","","",""},"#).is_err()); // bad escape
    assert!(database("/* unterminated {\"a\",\"m\",\"\",\"\",\"\"},").is_err());
}

#[test]
fn split_presets_into_directives() {
    let ds = split("-v 9,minutes -F samsung");
    assert_eq!(
        ds,
        vec![
            Directive::AttributeOverride("9,minutes".to_string()),
            Directive::FirmwareFix("samsung".to_string()),
        ]
    );
}

#[test]
fn split_ignores_unknown_words() {
    let ds = split("  -q\tloud -v\n1,raw48 stray -F xerrorlba -v");
    assert_eq!(
        ds,
        vec![
            Directive::AttributeOverride("1,raw48".to_string()),
            Directive::FirmwareFix("xerrorlba".to_string()),
        ]
    );
}

#[test]
fn split_empty_presets() {
    assert_eq!(split(""), vec![]);
    assert_eq!(split("   \t \n"), vec![]);
}
