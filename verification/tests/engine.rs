use hdd::drivedb::{DeviceId, RPM};
use hdd::loader::Loader;
use hdd::vendor_attribute::{parse, Type};

fn device(model: &str, firmware: &str, rpm: RPM) -> DeviceId {
    DeviceId { model: model.to_string(), firmware: firmware.to_string(), rpm }
}

fn db_from(text: &str) -> hdd::drivedb::DriveDB {
    let mut loader = Loader::new();
    loader.load(text).unwrap();
    loader.db().unwrap()
}

#[test]
fn example_family_warning_and_attribute() {
    let db = db_from(r#"{"Example Family","ExampleModel.*","","Some warning","-v 9,minutes"},"#);
    let id = device("ExampleModel-2TB", "1.0", RPM::Unknown);
    let meta = db.render_meta(&id, &vec![]);
    assert_eq!(meta.family.as_deref(), Some("Example Family"));
    assert_eq!(meta.warning.as_deref(), Some("Some warning"));
    let a = meta.render_attribute(9).unwrap();
    assert_eq!(a.id, Some(9));
    assert_eq!(a.name.as_deref(), Some("Power_On_Minutes"));
    assert_eq!(a.format, "min2hour");
    assert_eq!(a.byte_order, "543210");
}

#[test]
fn non_matching_model_gives_nothing() {
    let db = db_from(r#"{"Example Family","ExampleModel.*","","Some warning","-v 9,minutes"},"#);
    let id = device("OtherModel", "1.0", RPM::Unknown);
    let meta = db.render_meta(&id, &vec![]);
    assert_eq!(meta.family, None);
    assert_eq!(meta.warning, None);
    assert!(meta.render_attribute(9).is_none());
}

#[test]
fn model_pattern_must_span_whole_string() {
    let db = db_from(r#"{"f","Model","","",""},"#);
    let matching = db.render_meta(&device("Model", "", RPM::Unknown), &vec![]);
    assert_eq!(matching.family.as_deref(), Some("f"));
    // a proper prefix or superstring of the model is no match
    let prefix = db.render_meta(&device("Model-2TB", "", RPM::Unknown), &vec![]);
    assert_eq!(prefix.family, None);
}

#[test]
fn firmware_pattern_filters() {
    let db = db_from(r#"{"f","M","1\\.0.*","",""},"#);
    let hit = db.render_meta(&device("M", "1.0b", RPM::Unknown), &vec![]);
    assert_eq!(hit.family.as_deref(), Some("f"));
    let miss = db.render_meta(&device("M", "2.0", RPM::Unknown), &vec![]);
    assert_eq!(miss.family, None);
}

#[test]
fn empty_firmware_pattern_matches_any() {
    let db = db_from(r#"{"f","M","","",""},"#);
    let meta = db.render_meta(&device("M", "whatever", RPM::Unknown), &vec![]);
    assert_eq!(meta.family.as_deref(), Some("f"));
}

#[test]
fn later_family_wins() {
    // two entries with identical patterns and differing family: the later
    // one, by database order, determines the rendered family
    let db = db_from(
        r#"
        {"General Family","M.*","","",""},
        {"Specific Family","M.*","","",""},
    "#,
    );
    let meta = db.render_meta(&device("M5", "1", RPM::Unknown), &vec![]);
    assert_eq!(meta.family.as_deref(), Some("Specific Family"));
}

#[test]
fn later_empty_family_does_not_erase() {
    let db = db_from(
        r#"
        {"Named","M.*","","",""},
        {"","M.*","","later warning",""},
    "#,
    );
    let meta = db.render_meta(&device("M5", "1", RPM::Unknown), &vec![]);
    assert_eq!(meta.family.as_deref(), Some("Named"));
    assert_eq!(meta.warning.as_deref(), Some("later warning"));
}

#[test]
fn later_directive_replaces_whole_record() {
    let db = db_from(
        r#"
        {"a","M.*","","","-v 9,raw48,First_Name"},
        {"b","M.*","","","-v 9,sec2hour"},
    "#,
    );
    let meta = db.render_meta(&device("M", "", RPM::Unknown), &vec![]);
    let a = meta.render_attribute(9).unwrap();
    // the whole later record stands; the earlier name is not merged in
    assert_eq!(a.format, "sec2hour");
    assert_eq!(a.name, None);
}

#[test]
fn user_override_beats_database() {
    let db = db_from(r#"{"f","M.*","","","-v 9,seconds"},"#);
    let user = vec![parse("9,minutes").unwrap()];
    let meta = db.render_meta(&device("M", "", RPM::Unknown), &user);
    let a = meta.render_attribute(9).unwrap();
    assert_eq!(a.format, "min2hour");
    assert_eq!(a.name.as_deref(), Some("Power_On_Minutes"));
}

#[test]
fn wildcard_applies_when_no_specific_id() {
    let db = db_from(r#"{"f","M","","","-v N,hex48 -v 9,raw24/raw24"},"#);
    let meta = db.render_meta(&device("M", "", RPM::Unknown), &vec![]);
    let nine = meta.render_attribute(9).unwrap();
    assert_eq!(nine.format, "raw24/raw24");
    let five = meta.render_attribute(5).unwrap();
    assert_eq!(five.format, "hex48");
}

#[test]
fn drivetype_filter() {
    let db = db_from(r#"{"f","M","","","-v 9,raw48,Spin_Up_Time,HDD"},"#);
    let hdd_meta = db.render_meta(&device("M", "", RPM::RPM(7200)), &vec![]);
    assert_eq!(hdd_meta.render_attribute(9).unwrap().drivetype, Some(Type::HDD));
    let ssd_meta = db.render_meta(&device("M", "", RPM::NonRotating), &vec![]);
    assert!(ssd_meta.render_attribute(9).is_none());
    let unknown_meta = db.render_meta(&device("M", "", RPM::Unknown), &vec![]);
    assert!(unknown_meta.render_attribute(9).is_none());
}

#[test]
fn malformed_preset_directive_skipped() {
    let db = db_from(r#"{"f","M","","","-v not-a-descriptor -v 9,minutes"},"#);
    let meta = db.render_meta(&device("M", "", RPM::Unknown), &vec![]);
    let a = meta.render_attribute(9).unwrap();
    assert_eq!(a.format, "min2hour");
}

#[test]
fn invalid_regex_entry_skipped() {
    let db = db_from(
        r#"
        {"broken","M(","","",""},
        {"good","M.*","","",""},
    "#,
    );
    let meta = db.render_meta(&device("M5", "", RPM::Unknown), &vec![]);
    assert_eq!(meta.family.as_deref(), Some("good"));
}

#[test]
fn reserved_entry_never_matches() {
    let db = db_from(
        r#"
        {"$reserved","M.*","","do not show",""},
        {"visible","M.*","","",""},
    "#,
    );
    let meta = db.render_meta(&device("M5", "", RPM::Unknown), &vec![]);
    assert_eq!(meta.family.as_deref(), Some("visible"));
    assert_eq!(meta.warning, None);
}
