use fintech::date::Date;

#[test]
fn parse_reads_iso_dates() {
    assert_eq!(Date::parse("2020-01-01"), Some(Date::new(2020, 1, 1)));
    assert_eq!(Date::parse("2021-12-31"), Some(Date::new(2021, 12, 31)));
    assert_eq!(Date::parse("2020-02-29"), Some(Date::new(2020, 2, 29)));
}

#[test]
fn parse_refuses_what_is_no_date() {
    assert_eq!(Date::parse(""), None);
    assert_eq!(Date::parse("2020/01/01"), None);
    assert_eq!(Date::parse("2021-02-29"), None);
    assert_eq!(Date::parse("2020-13-01"), None);
    assert_eq!(Date::parse("yesterday"), None);
}
