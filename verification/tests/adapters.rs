use spayd::{Crc32Error, Crc32Ok, IbanBic, Spayd, SpaydDate, SpaydError};

#[test]
fn no_crc32() {
    let spayd = Spayd::new_v1_0(vec![
        ("ACC", "CZ5855000000001265098001"),
        ("AM", "100.00"),
        ("CC", "CZK"),
    ]);

    assert_eq!(spayd.check_crc32(), Ok(Crc32Ok::NotProvided));
}

#[test]
fn good_crc32() {
    let spayd = Spayd::new_v1_0(vec![
        ("ACC", "CZ5855000000001265098001"),
        ("AM", "100.00"),
        ("CC", "CZK"),
        ("CRC32", "AAD80227"),
    ]);

    assert_eq!(spayd.check_crc32(), Ok(Crc32Ok::Passed));
}

#[test]
fn bad_crc32() {
    let spayd = Spayd::new_v1_0(vec![
        ("ACC", "CZ5855000000001265098001"),
        ("AM", "100.00"),
        ("CC", "CZK"),
        ("CRC32", "12345678"),
    ]);

    assert_eq!(spayd.check_crc32(), Err(Crc32Error::Mismatch));
}

#[test]
fn invalid_crc32() {
    let spayd = Spayd::new_v1_0(vec![
        ("ACC", "CZ5855000000001265098001"),
        ("AM", "100.00"),
        ("CC", "CZK"),
        ("CRC32", "JUNK"),
    ]);

    assert_eq!(spayd.check_crc32(), Err(Crc32Error::Malformed));
}

#[test]
fn required_no_crc32() {
    let spayd = Spayd::new_v1_0(vec![
        ("ACC", "CZ5855000000001265098001"),
        ("AM", "100.00"),
        ("CC", "CZK"),
    ]);

    assert_eq!(spayd.require_crc32(), Err(Crc32Error::Required));
}

#[test]
fn required_good_crc32() {
    let spayd = Spayd::new_v1_0(vec![
        ("ACC", "CZ5855000000001265098001"),
        ("AM", "100.00"),
        ("CC", "CZK"),
        ("CRC32", "AAD80227"),
    ]);

    assert_eq!(spayd.require_crc32(), Ok(Crc32Ok::Passed));
}

#[test]
fn required_bad_crc32() {
    let spayd = Spayd::new_v1_0(vec![
        ("ACC", "CZ5855000000001265098001"),
        ("AM", "100.00"),
        ("CC", "CZK"),
        ("CRC32", "12345678"),
    ]);

    assert_eq!(spayd.require_crc32(), Err(Crc32Error::Mismatch));
}

#[test]
fn acc_no_bic() {
    let spayd = Spayd::new_v1_0(vec![("ACC", "CZ5855000000001265098001")]);
    assert_eq!(
        spayd.account(),
        Ok(IbanBic::iban_only("CZ5855000000001265098001"))
    )
}

#[test]
fn acc_with_bic() {
    let spayd = Spayd::new_v1_0(vec![("ACC", "CZ5855000000001265098001+RZBCCZPP")]);
    assert_eq!(
        spayd.account(),
        Ok(IbanBic::iban_bic("CZ5855000000001265098001", "RZBCCZPP"))
    )
}

#[test]
fn two_alt_accs() {
    let spayd = Spayd::new_v1_0(vec![(
        "ALT-ACC",
        "CZ5855000000001265098001+RZBCCZPP,CZ5855000000001265098001",
    )]);
    assert_eq!(
        spayd.alternative_accounts(),
        Ok(vec![
            IbanBic::iban_bic("CZ5855000000001265098001", "RZBCCZPP"),
            IbanBic::iban_only("CZ5855000000001265098001"),
        ])
    )
}

#[test]
fn set_one_alt_acc() {
    let mut spayd = Spayd::empty_v1_0();
    spayd.set_alternative_accounts(vec![IbanBic::iban_bic(
        "CZ5855000000001265098001",
        "RZBCCZPP",
    )]);
    assert_eq!(
        spayd,
        Spayd::new_v1_0(vec![("ALT-ACC", "CZ5855000000001265098001+RZBCCZPP")])
    )
}

#[test]
fn set_two_alt_accs() {
    let mut spayd = Spayd::empty_v1_0();
    spayd.set_alternative_accounts(vec![
        IbanBic::iban_bic("CZ5855000000001265098001", "RZBCCZPP"),
        IbanBic::iban_only("CZ5855000000001265098001"),
    ]);
    assert_eq!(
        spayd,
        Spayd::new_v1_0(vec![(
            "ALT-ACC",
            "CZ5855000000001265098001+RZBCCZPP,CZ5855000000001265098001"
        )])
    )
}

#[test]
fn convert_due_date_correct_format() {
    let spayd = Spayd::new_v1_0(vec![("DT", "20121231")]);
    assert_eq!(
        spayd.due_date(),
        Ok(SpaydDate::from_ymd_opt(2012, 12, 31).unwrap())
    )
}

#[test]
fn convert_due_date_incorrect_format() {
    let spayd = Spayd::new_v1_0(vec![("DT", "2012/12/31")]);
    assert_eq!(
        spayd.due_date(),
        Err(SpaydError::ConvertError("2012/12/31".into()))
    )
}

#[test]
fn convert_set_due_date_correct_format() {
    let mut spayd = Spayd::empty_v1_0();
    spayd.set_due_date(&SpaydDate::from_ymd_opt(2012, 12, 31).unwrap());
    assert_eq!(spayd.field("DT"), Some("20121231"))
}

#[test]
fn date_conversion_due_date_correct_format() {
    let spayd = Spayd::new_v1_0(vec![("DT", "20121231")]);
    assert_eq!(
        spayd.due_date(),
        Ok(SpaydDate::from_ymd_opt(2012, 12, 31).unwrap())
    )
}

#[test]
fn date_conversion_due_date_incorrect_format() {
    let spayd = Spayd::new_v1_0(vec![("DT", "2012/12/31")]);
    assert_eq!(
        spayd.due_date(),
        Err(SpaydError::ConvertError("2012/12/31".into()))
    )
}

#[test]
fn date_conversion_set_due_date_correct_format() {
    let mut spayd = Spayd::empty_v1_0();
    spayd.set_due_date(&SpaydDate::from_ymd_opt(2012, 12, 31).unwrap());
    assert_eq!(spayd.field("DT"), Some("20121231"))
}

#[test]
fn date_rejects_invalid_calendar_days() {
    assert_eq!(SpaydDate::from_ymd_opt(2012, 2, 29).map(|d| d.day), Some(29));
    assert_eq!(SpaydDate::from_ymd_opt(2013, 2, 29), None);
    assert_eq!(SpaydDate::from_ymd_opt(1900, 2, 29), None);
    assert_eq!(SpaydDate::from_ymd_opt(2000, 2, 29).map(|d| d.day), Some(29));
    assert_eq!(SpaydDate::from_ymd_opt(2012, 13, 1), None);
    assert_eq!(SpaydDate::from_ymd_opt(2012, 4, 31), None);

    let spayd = Spayd::new_v1_0(vec![("DT", "20130229")]);
    assert_eq!(
        spayd.due_date(),
        Err(SpaydError::ConvertError("20130229".into()))
    );
}

#[test]
fn missing_typed_fields() {
    let spayd = Spayd::empty_v1_0();
    assert_eq!(
        spayd.account(),
        Err(SpaydError::FieldMissing("ACC".to_string()))
    );
    assert_eq!(
        spayd.alternative_accounts(),
        Err(SpaydError::FieldMissing("ALT-ACC".to_string()))
    );
    assert_eq!(
        spayd.amount(),
        Err(SpaydError::FieldMissing("AM".to_string()))
    );
    assert_eq!(
        spayd.currency(),
        Err(SpaydError::FieldMissing("CC".to_string()))
    );
    assert_eq!(
        spayd.due_date(),
        Err(SpaydError::FieldMissing("DT".to_string()))
    );
}

#[test]
fn amount_reads_and_writes_decimals() {
    let spayd = Spayd::new_v1_0(vec![("AM", "480.50")]);
    assert_eq!(
        spayd.amount(),
        Ok("480.50".parse::<rust_decimal::Decimal>().unwrap())
    );

    let spayd = Spayd::new_v1_0(vec![("AM", "not a number")]);
    assert_eq!(
        spayd.amount(),
        Err(SpaydError::ConvertError("not a number".to_string()))
    );

    let mut spayd = Spayd::empty_v1_0();
    spayd.set_amount(&"250.00".parse::<rust_decimal::Decimal>().unwrap());
    assert_eq!(spayd.field("AM"), Some("250.00"));
}

#[test]
fn currency_reads_and_writes_codes() {
    let spayd = Spayd::new_v1_0(vec![("CC", "CZK")]);
    assert_eq!(spayd.currency(), Ok(iso_currency::Currency::CZK));

    let spayd = Spayd::new_v1_0(vec![("CC", "money")]);
    assert_eq!(
        spayd.currency(),
        Err(SpaydError::ConvertError("money".to_string()))
    );

    let mut spayd = Spayd::empty_v1_0();
    spayd.set_currency(iso_currency::Currency::EUR);
    assert_eq!(spayd.field("CC"), Some("EUR"));
}

#[test]
fn parse_iban_checks_the_iban() {
    let good = IbanBic::iban_only("DE44500105175407324931");
    let parsed = good.parse_iban().unwrap();
    assert_eq!(parsed.to_string(), "DE44 5001 0517 5407 3249 31");

    let bad = IbanBic::iban_only("DE44500105175407324932");
    assert_eq!(
        bad.parse_iban(),
        Err(SpaydError::ConvertError("DE44500105175407324932".to_string()))
    );
}

#[test]
fn account_text_round_trip() {
    let mut spayd = Spayd::empty_v1_0();
    spayd.set_account(&IbanBic::iban_bic("CZ5855000000001265098001", "RZBCCZPP"));
    assert_eq!(spayd.field("ACC"), Some("CZ5855000000001265098001+RZBCCZPP"));
    assert_eq!(
        spayd.account(),
        Ok(IbanBic::iban_bic("CZ5855000000001265098001", "RZBCCZPP"))
    );
}
