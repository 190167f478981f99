use hdd::drivedb::{DeviceId, RPM};
use hdd::loader::{classify_paths, Error, Loader};

fn device(model: &str) -> DeviceId {
    DeviceId { model: model.to_string(), firmware: String::new(), rpm: RPM::Unknown }
}

#[test]
fn bad_main_candidate_then_good_one() {
    // a malformed text (unterminated string literal) fails with a syntax
    // diagnostic; the next main candidate still succeeds
    let mut loader = Loader::new();
    let bad = r#"{"Fam","Model"#;
    let good = r#"{"Fam","Model.*","","",""},"#;
    match loader.load(bad) {
        Err(Error::Syntax(_)) => {},
        other => panic!("expected a syntax error, got {:?}", other),
    }
    loader.load(good).unwrap();
    let db = loader.db().unwrap();
    let meta = db.render_meta(&device("Model-X"), &vec![]);
    assert_eq!(meta.family.as_deref(), Some("Fam"));
}

#[test]
fn first_main_success_wins() {
    let mut loader = Loader::new();
    loader.load(r#"{"first","M.*","","",""},"#).unwrap();
    loader.load(r#"{"second","M.*","","",""},"#).unwrap();
    let db = loader.db().unwrap();
    let meta = db.render_meta(&device("M"), &vec![]);
    assert_eq!(meta.family.as_deref(), Some("first"));
}

#[test]
fn nothing_loaded_fails() {
    let loader = Loader::new();
    match loader.db() {
        Err(Error::NothingLoaded) => {},
        Err(other) => panic!("expected NothingLoaded, got {:?}", other),
        Ok(_) => panic!("expected NothingLoaded, got a database"),
    }
}

#[test]
fn additional_only_is_valid() {
    let mut loader = Loader::new();
    loader.load_additional(r#"{"extra","M.*","","",""},"#).unwrap();
    let db = loader.db().unwrap();
    let meta = db.render_meta(&device("M"), &vec![]);
    assert_eq!(meta.family.as_deref(), Some("extra"));
}

#[test]
fn additional_entries_precede_main() {
    // additional entries are consulted first; a later (main) match with a
    // non-empty family overrides, an empty one does not
    let mut loader = Loader::new();
    loader.load_additional(r#"{"from additional","M.*","","",""},"#).unwrap();
    loader.load(r#"{"from main","M.*","","",""},"#).unwrap();
    let db = loader.db().unwrap();
    let meta = db.render_meta(&device("M"), &vec![]);
    assert_eq!(meta.family.as_deref(), Some("from main"));

    let mut loader = Loader::new();
    loader.load_additional(r#"{"from additional","M.*","","",""},"#).unwrap();
    loader.load(r#"{"","M.*","","",""},"#).unwrap();
    let db = loader.db().unwrap();
    let meta = db.render_meta(&device("M"), &vec![]);
    assert_eq!(meta.family.as_deref(), Some("from additional"));
}

#[test]
fn additional_failure_leaves_loader_unchanged() {
    let mut loader = Loader::new();
    loader.load_additional(r#"{"kept","M.*","","",""},"#).unwrap();
    assert!(loader.load_additional("not a database").is_err());
    loader.load(r#"{"main","N.*","","",""},"#).unwrap();
    let db = loader.db().unwrap();
    let meta = db.render_meta(&device("M"), &vec![]);
    assert_eq!(meta.family.as_deref(), Some("kept"));
}

#[test]
fn classify_explicit_paths() {
    let options = vec!["+extra.h".to_string(), "main.h".to_string(), "+more.h".to_string()];
    let (adds, mains, warn) = classify_paths(&options);
    assert_eq!(adds, ["extra.h", "more.h"]);
    assert_eq!(mains, ["main.h"]);
    assert!(warn);
}

#[test]
fn classify_defaults_when_empty() {
    let (adds, mains, warn) = classify_paths(&vec![]);
    assert_eq!(adds, ["/etc/smart_drivedb.h"]);
    assert_eq!(
        mains,
        [
            "/var/lib/smartmontools/drivedb/drivedb.h",
            "/usr/local/share/smartmontools/drivedb.h",
            "/usr/share/smartmontools/drivedb.h",
        ]
    );
    assert!(!warn);
}

#[test]
fn classify_additional_only_keeps_defaults_for_main() {
    let (adds, mains, warn) = classify_paths(&vec!["+mine.h".to_string()]);
    assert_eq!(adds, ["mine.h"]);
    assert_eq!(mains.len(), 3);
    assert!(warn);
}
