use hdd::vendor_attribute::{parse, Attribute, Type};

fn ok(s: &str) -> Attribute {
    parse(s).expect(s)
}

#[test]
fn alias_temp10x_expands() {
    // descriptor "194,10xCelsius" parses, via the legacy table, to temp10x
    let a = ok("194,10xCelsius");
    assert_eq!(a.id, Some(194));
    assert_eq!(a.format, "temp10x");
    assert_eq!(a.name.as_deref(), Some("Temperature_Celsius_x10"));
    assert_eq!(a.byte_order, "543210");
    assert_eq!(a.drivetype, None);
}

#[test]
fn wildcard_raw48() {
    let a = ok("N,raw48");
    assert_eq!(a.id, None);
    assert_eq!(a.format, "raw48");
    assert_eq!(a.byte_order, "543210");
    assert_eq!(a.name, None);
    assert_eq!(a.drivetype, None);
}

#[test]
fn aliases_equal_their_expansions() {
    let cases = [
        ("9,halfminutes", "9,halfmin2hour,Power_On_Half_Minutes"),
        ("9,minutes", "9,min2hour,Power_On_Minutes"),
        ("9,seconds", "9,sec2hour,Power_On_Seconds"),
        ("9,temp", "9,tempminmax,Temperature_Celsius"),
        ("192,emergencyretractcyclect", "192,raw48,Emerg_Retract_Cycle_Ct"),
        ("193,loadunload", "193,raw24/raw24"),
        ("194,10xCelsius", "194,temp10x,Temperature_Celsius_x10"),
        ("194,unknown", "194,raw48,Unknown_Attribute"),
        ("197,increasing", "197,raw48+,Total_Pending_Sectors"),
        ("198,offlinescanuncsectorct", "198,raw48,Offline_Scan_UNC_SectCt"),
        ("198,increasing", "198,raw48+,Total_Offl_Uncorrectabl"),
        ("200,writeerrorcount", "200,raw48,Write_Error_Count"),
        ("201,detectedtacount", "201,raw48,Detected_TA_Count"),
        ("220,temp", "220,tempminmax,Temperature_Celsius"),
    ];
    for (alias, expansion) in cases {
        assert_eq!(ok(alias), ok(expansion), "{}", alias);
    }
}

#[test]
fn default_byte_order_table() {
    // the default byte order per format, when none is given explicitly
    assert_eq!(ok("1,raw64").byte_order, "543210wv");
    assert_eq!(ok("1,hex64").byte_order, "543210wv");
    assert_eq!(ok("1,raw56").byte_order, "r543210");
    assert_eq!(ok("1,hex56").byte_order, "r543210");
    assert_eq!(ok("1,raw24/raw32").byte_order, "r543210");
    assert_eq!(ok("1,msec24hour32").byte_order, "r543210");
    assert_eq!(ok("1,raw48").byte_order, "543210");
    assert_eq!(ok("1,tempminmax").byte_order, "543210");
    assert_eq!(ok("1,somevendorformat").byte_order, "543210");
}

#[test]
fn explicit_byte_order_kept() {
    let a = ok("9,raw48:012345");
    assert_eq!(a.byte_order, "012345");
    assert_eq!(a.name, None);
    let b = ok("9,raw64:r543210,Spindle_Time");
    assert_eq!(b.byte_order, "r543210");
    assert_eq!(b.name.as_deref(), Some("Spindle_Time"));
}

#[test]
fn name_and_drivetype() {
    let a = ok("9,raw48,Power_On_Hours,SSD");
    assert_eq!(a.drivetype, Some(Type::SSD));
    let b = ok("9,raw48,Power_On_Hours,HDD");
    assert_eq!(b.drivetype, Some(Type::HDD));
    let c = ok("9,raw48,Power_On_Hours");
    assert_eq!(c.drivetype, None);
}

#[test]
fn id_bounds_and_leading_zeros() {
    assert_eq!(ok("0,raw48").id, Some(0));
    assert_eq!(ok("255,raw48").id, Some(255));
    assert_eq!(ok("0009,raw48").id, Some(9));
    assert_eq!(ok("0255,raw48").id, Some(255));
    assert!(parse("256,raw48").is_err());
    assert!(parse("99999999999999999999,raw48").is_err());
}

#[test]
fn malformed_descriptors_rejected() {
    assert!(parse("").is_err());
    assert!(parse("abc").is_err());
    assert!(parse("9").is_err());
    assert!(parse("9,").is_err());
    assert!(parse(",raw48").is_err());
    assert!(parse("9,raw48:").is_err());
    assert!(parse("9,raw48,").is_err());
    assert!(parse("9,raw48,,SSD").is_err());
    assert!(parse("9,raw48,Name,NVM").is_err());
    assert!(parse("9,raw48,Name,HDDx").is_err());
    assert!(parse("9,raw48,Name,SSD,extra").is_err());
    assert!(parse("N5,raw48").is_err());
}
