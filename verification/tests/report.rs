use hdd::report::{ata_security_status, bool_to_sup, ternary_feature_status, Ternary};

#[test]
fn supported_words() {
    assert_eq!(bool_to_sup(true), "supported");
    assert_eq!(bool_to_sup(false), "not supported");
}

#[test]
fn ternary_words() {
    assert_eq!(ternary_feature_status(&Ternary::Unsupported), "Unavailable");
    assert_eq!(ternary_feature_status(&Ternary::Disabled), "Disabled");
    assert_eq!(ternary_feature_status(&Ternary::Enabled), "Enabled");
}

#[test]
fn security_unavailable() {
    assert_eq!(ata_security_status(0x0000, 0), "Unavailable");
    assert_eq!(ata_security_status(0xfffe, 0x1234), "Unavailable");
}

#[test]
fn security_disabled_states() {
    assert_eq!(ata_security_status(0x0001, 0), "Disabled, NOT FROZEN [SEC1]");
    assert_eq!(ata_security_status(0x0001 | 0x0008, 0), "Disabled, frozen [SEC2]");
}

#[test]
fn security_enabled_states() {
    assert_eq!(
        ata_security_status(0x0001 | 0x0002, 0),
        "ENABLED, PW level HIGH, not locked, not frozen [SEC5]"
    );
    assert_eq!(
        ata_security_status(0x0001 | 0x0002 | 0x0008, 0),
        "ENABLED, PW level HIGH, not locked, frozen [SEC6]"
    );
    assert_eq!(
        ata_security_status(0x0001 | 0x0002 | 0x0100 | 0x0004, 0),
        "ENABLED, PW level MAX, **LOCKED** [SEC4]"
    );
    assert_eq!(
        ata_security_status(0x0001 | 0x0002 | 0x0004 | 0x0010, 0),
        "ENABLED, PW level HIGH, **LOCKED** [SEC4], PW ATTEMPTS EXCEEDED"
    );
}

#[test]
fn security_master_password_id() {
    assert_eq!(
        ata_security_status(0x0001, 0x1234),
        "Disabled, NOT FROZEN [SEC1], Master PW ID: 0x1234"
    );
    assert_eq!(
        ata_security_status(0x0001, 0x00ab),
        "Disabled, NOT FROZEN [SEC1], Master PW ID: 0x00ab"
    );
    // the id is only shown strictly between 0x0000 and 0xfffe
    assert_eq!(ata_security_status(0x0001, 0x0000), "Disabled, NOT FROZEN [SEC1]");
    assert_eq!(ata_security_status(0x0001, 0xfffe), "Disabled, NOT FROZEN [SEC1]");
    assert_eq!(ata_security_status(0x0001, 0xffff), "Disabled, NOT FROZEN [SEC1]");
}
