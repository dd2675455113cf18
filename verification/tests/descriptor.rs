use spayd::{parse_spayd, Crc32Error, Crc32Ok, ParseFault, Spayd, SpaydError, SpaydVersion};

#[test]
fn version_1_0() {
    let spayd = Spayd::empty_v1_0();
    assert_eq!(spayd.version().major, 1);
    assert_eq!(spayd.version().minor, 0);

    assert_eq!(spayd.to_string(), "SPD*1.0");
}

#[test]
fn iter_canonical() {
    let spayd = Spayd::new_v1_0(vec![
        ("CC", "CZK"),
        ("MSG", "Payment for the goods"),
        ("AM", "480.50"),
        ("ACC", "CZ5855000000001265098001"),
        ("CRC32", "JUNKDATA"),
    ]);
    let mut iterator = spayd.iter_canonic().into_iter();

    assert_eq!(
        iterator.next(),
        Some(("ACC".to_string(), "CZ5855000000001265098001".to_string()))
    );
    assert_eq!(iterator.next(), Some(("AM".to_string(), "480.50".to_string())));
    assert_eq!(iterator.next(), Some(("CC".to_string(), "CZK".to_string())));
    assert_eq!(
        iterator.next(),
        Some(("MSG".to_string(), "Payment for the goods".to_string()))
    );
    assert_eq!(iterator.next(), None);
}

#[test]
fn cannonical_string() {
    let spayd = Spayd::new_v1_0(vec![
        ("CC", "CZK"),
        ("MSG", "Payment for the goods"),
        ("AM", "480.50"),
        ("ACC", "CZ5855000000001265098001"),
        ("CRC32", "JUNKDATA"),
    ]);

    assert_eq!(
        spayd.canonic_representation(),
        "SPD*1.0*ACC:CZ5855000000001265098001*AM:480.50*CC:CZK*MSG:Payment for the goods"
    );
}

#[test]
fn to_string() {
    let spayd = Spayd::new_v1_0(vec![
        ("ACC", "CZ5855000000001265098001"),
        ("AM", "480.50"),
        ("CC", "CZK"),
        ("MSG", "Payment for the goods"),
    ]);

    assert_eq!(
        spayd.to_string(),
        "SPD*1.0*ACC:CZ5855000000001265098001*AM:480.50*CC:CZK*MSG:Payment for the goods"
    );
}

#[test]
fn percent_encoding() {
    let spayd = Spayd::new_v1_0(vec![("MSG", "****!")]);
    assert_eq!(spayd.to_string(), "SPD*1.0*MSG:%2A%2A%2A%2A!");

    let spayd = Spayd::new_v1_0(vec![("MSG", "PŘÍKLAD")]);
    assert_eq!(spayd.to_string(), "SPD*1.0*MSG:P%C5%98%C3%8DKLAD");
}

#[test]
fn parse_version() {
    assert_eq!(
        parse_spayd("SPD*0.1*ACC:X").unwrap().version(),
        SpaydVersion::new(0, 1)
    );
    assert_eq!(
        parse_spayd("SPD*1.0*ACC:X").unwrap().version(),
        SpaydVersion::new(1, 0)
    );
    assert_eq!(
        parse_spayd("SPD*1.5*ACC:X").unwrap().version(),
        SpaydVersion::new(1, 5)
    );
    assert_eq!(
        parse_spayd("SPD*2.1*ACC:X").unwrap().version(),
        SpaydVersion::new(2, 1)
    );
}

#[test]
fn parse_heaser() {
    let spayd = parse_spayd("SPD*1.0*ACC:...").unwrap();
    assert_eq!(spayd.version(), SpaydVersion::new(1, 0));
    assert_eq!(spayd.field("ACC"), Some("..."));
}

#[test]
fn parse_kv() {
    let spayd = parse_spayd("SPD*1.0*ACC:CZ5855000000001265098001").unwrap();
    assert_eq!(spayd.field("ACC"), Some("CZ5855000000001265098001"));
    let spayd = parse_spayd("SPD*1.0*AM:480.50").unwrap();
    assert_eq!(spayd.field("AM"), Some("480.50"));
    let spayd = parse_spayd("SPD*1.0*MSG:Payment for the goods").unwrap();
    assert_eq!(spayd.field("MSG"), Some("Payment for the goods"));
}

#[test]
fn percent_encoded_kv() {
    let spayd = parse_spayd("SPD*1.0*MSG:%40%3F%2A%24%21").unwrap();
    assert_eq!(spayd.field("MSG"), Some("@?*$!"));
    let spayd = parse_spayd("SPD*1.0*RN:Krte%C4%8Dek").unwrap();
    assert_eq!(spayd.field("RN"), Some("Krteček"));
}

#[test]
fn parse_values() {
    let spayd =
        parse_spayd("SPD*1.0*ACC:CZ5855000000001265098001*AM:480.50*CC:CZK*MSG:Payment for the goods")
            .unwrap();

    assert_eq!(
        spayd.iter(),
        vec![
            ("ACC".to_string(), "CZ5855000000001265098001".to_string()),
            ("AM".to_string(), "480.50".to_string()),
            ("CC".to_string(), "CZK".to_string()),
            ("MSG".to_string(), "Payment for the goods".to_string()),
        ]
    );
}

#[test]
fn percent_encoded_values() {
    let spayd = parse_spayd("SPD*1.0*MSG:%40%3F%2A%24%21").unwrap();
    assert_eq!(
        spayd.iter(),
        vec![("MSG".to_string(), "@?*$!".to_string())]
    );
}

#[test]
fn full_example() {
    let spayd = parse_spayd(
        "SPD*1.0*ACC:CZ5855000000001265098001*AM:480.50*CC:CZK*MSG:Payment for the goods",
    )
    .unwrap();

    assert_eq!(spayd.version(), SpaydVersion::new(1, 0));
    assert_eq!(spayd.field("ACC"), Some("CZ5855000000001265098001"));
    assert_eq!(spayd.field("AM"), Some("480.50"));
    assert_eq!(spayd.field("CC"), Some("CZK"));
    assert_eq!(spayd.field("MSG"), Some("Payment for the goods"));
    assert_eq!(spayd.field("ALT-ACC"), None);
    assert_eq!(spayd.field("RF"), None);
}

#[test]
fn percent_encoded() {
    let spayd = parse_spayd("SPD*1.0*MSG:%40%3F%2A%24%21").unwrap();

    assert_eq!(spayd.field("MSG"), Some("@?*$!"));
}

#[test]
fn incomplete() {
    assert!(parse_spayd("SPD*1.0").is_err());
    assert!(parse_spayd("SPD*1.0*").is_err());
    assert!(parse_spayd("SPD*1.0*ACC").is_err());
    // An entry with an empty value is legal: the name is there, the value is
    // empty text.
    assert!(parse_spayd("SPD*1.0*ACC:").is_ok());
}

#[test]
fn non_ascii() {
    assert!(parse_spayd("SPD*1.0*PŘÍKLAD:123").is_err());
}

#[test]
fn empty_value_parses() {
    let spayd = parse_spayd("SPD*1.0*MSG:").unwrap();
    assert_eq!(spayd.field("MSG"), Some(""));
}

#[test]
fn missing_field_list_fails() {
    match parse_spayd("SPD*1.0*") {
        Err(SpaydError::ParseError(fault, _)) => {
            assert_eq!(fault, ParseFault::EmptyFieldList);
        }
        other => panic!("expected an empty-field-list parse error, got {:?}", other),
    }
}

#[test]
fn display_round_trip() {
    let spayd = Spayd::new_v1_0(vec![
        ("MSG", "stars * and : colons % and\tcontrols"),
        ("ACC", "CZ5855000000001265098001"),
        ("RN", "Krteček"),
    ]);
    let text = spayd.to_string();
    let reparsed = parse_spayd(&text).unwrap();
    assert_eq!(reparsed, spayd);
}

#[test]
fn canonical_is_insertion_order_independent() {
    let a = Spayd::new_v1_0(vec![("MSG", "hello"), ("ACC", "CZ58"), ("CC", "CZK")]);
    let b = Spayd::new_v1_0(vec![("CC", "CZK"), ("ACC", "CZ58"), ("MSG", "hello")]);
    assert_eq!(a.canonic_representation(), b.canonic_representation());
    assert_eq!(a.to_string(), b.to_string());
}

#[test]
fn escaping_round_trip() {
    let value = "a*b:c%d\u{1}e";
    let mut spayd = Spayd::empty_v1_0();
    spayd.set_field("MSG", value);
    let text = spayd.to_string();
    // No unescaped separator may stand inside the encoded value.
    let encoded = &text["SPD*1.0*MSG:".len()..];
    assert!(!encoded.contains('*'));
    assert!(!encoded.contains(':'));
    let reparsed = parse_spayd(&text).unwrap();
    assert_eq!(reparsed.field("MSG"), Some(value));
}

#[test]
fn last_value_wins_for_repeated_names() {
    let spayd = parse_spayd("SPD*1.0*MSG:first*MSG:second").unwrap();
    assert_eq!(spayd.field("MSG"), Some("second"));
}

#[test]
fn parse_fault_reasons() {
    let bad_header = parse_spayd("XPD*1.0*ACC:X");
    match bad_header {
        Err(SpaydError::ParseError(fault, _)) => assert_eq!(fault, ParseFault::BadHeader),
        other => panic!("expected a bad-header error, got {:?}", other),
    }
    match parse_spayd("SPD*one.0*ACC:X") {
        Err(SpaydError::ParseError(fault, _)) => assert_eq!(fault, ParseFault::BadVersion),
        other => panic!("expected a bad-version error, got {:?}", other),
    }
    match parse_spayd("SPD*99999999999.0*ACC:X") {
        Err(SpaydError::ParseError(fault, _)) => assert_eq!(fault, ParseFault::BadVersion),
        other => panic!("expected a bad-version error, got {:?}", other),
    }
    match parse_spayd("SPD*1.0*NOCOLON") {
        Err(SpaydError::ParseError(fault, _)) => assert_eq!(fault, ParseFault::MalformedField),
        other => panic!("expected a malformed-field error, got {:?}", other),
    }
    match parse_spayd("SPD*1.0*:value") {
        Err(SpaydError::ParseError(fault, _)) => assert_eq!(fault, ParseFault::MalformedField),
        other => panic!("expected a malformed-field error, got {:?}", other),
    }
    match parse_spayd("SPD*1.0*M\u{7}SG:x") {
        Err(SpaydError::ParseError(fault, _)) => {
            assert_eq!(fault, ParseFault::IllegalCharacter)
        }
        other => panic!("expected an illegal-character error, got {:?}", other),
    }
}

#[test]
fn bad_utf8_percent_escape_is_an_encoding_error() {
    match parse_spayd("SPD*1.0*MSG:%FF%FE") {
        Err(SpaydError::EncodingError(t)) => assert_eq!(t, "%FF%FE"),
        other => panic!("expected an encoding error, got {:?}", other),
    }
}

#[test]
fn stray_percent_passes_through() {
    let spayd = parse_spayd("SPD*1.0*MSG:50%*AM:1").unwrap();
    assert_eq!(spayd.field("MSG"), Some("50%"));
    assert_eq!(spayd.field("AM"), Some("1"));
}

#[test]
fn validate_requires_account() {
    let spayd = Spayd::new_v1_0(vec![("AM", "100.00")]);
    assert_eq!(
        spayd.validate(),
        Err(SpaydError::RequiredFieldMissing("ACC".to_string()))
    );
    let spayd = Spayd::new_v1_0(vec![("ACC", "CZ5855000000001265098001")]);
    assert_eq!(spayd.validate(), Ok(()));
    let spayd = Spayd::new_v1_0(vec![
        ("ACC", "CZ5855000000001265098001"),
        ("CRC32", "12345678"),
    ]);
    assert_eq!(
        spayd.validate(),
        Err(SpaydError::Crc32Failed(Crc32Error::Mismatch))
    );
}

#[test]
fn set_field_overwrites() {
    let mut spayd = Spayd::empty_v1_0();
    spayd.set_field("MSG", "one");
    spayd.set_field("MSG", "two");
    assert_eq!(spayd.field("MSG"), Some("two"));
    assert_eq!(spayd.iter().len(), 1);
}

#[test]
fn checksum_idempotence_concrete() {
    let mut spayd = Spayd::new_v1_0(vec![
        ("ACC", "CZ5855000000001265098001"),
        ("AM", "100.00"),
        ("CC", "CZK"),
    ]);
    spayd.set_field("CRC32", "AAD80227");
    assert_eq!(spayd.check_crc32(), Ok(Crc32Ok::Passed));
    assert_eq!(spayd.require_crc32(), Ok(Crc32Ok::Passed));
}
