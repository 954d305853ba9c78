use asciitrie::calendar::{data_calendar_for_kind, AnyCalendarKind, CldrCalendar};
use asciitrie::decimal::{Key, SymbolsV1};
use asciitrie::line_break::{LineBreakPropertyTable, LineBreakRuleTable};
use asciitrie::supported::SupportedLocalesJoiner;

#[test]
fn rule_table_lookup() {
    // Two properties: rows for left = 1 and left = 2.
    let states: [i8; 4] = [10, 11, -1, 12];
    let table = LineBreakRuleTable(&states);
    assert_eq!(table.get_break_state_from_table(2, 1, 1), 10);
    assert_eq!(table.get_break_state_from_table(2, 1, 2), 11);
    assert_eq!(table.get_break_state_from_table(2, 2, 1), -1);
    assert_eq!(table.get_break_state_from_table(2, 2, 2), 12);
    assert_eq!(table.get_break_state_from_table(2, 3, 1), 0);
}

#[test]
fn decimal_symbols_hold_their_fields() {
    let s = SymbolsV1 {
        zero_digit: '0',
        decimal_separator: String::from("."),
        grouping_separator: String::from(","),
    };
    assert_eq!(s.clone(), s);
    assert_eq!(Key::SymbolsV1, Key::SymbolsV1);
    assert_ne!(SupportedLocalesJoiner::Union, SupportedLocalesJoiner::Intersection);
}

#[test]
fn property_table_lookup() {
    let mut props = vec![0u8; 256];
    props[5] = 7;
    props[128 + 5] = 9;
    let table = LineBreakPropertyTable(&props);
    assert_eq!(table.get_prop_for_code_point(5), 7);
    assert_eq!(table.get_prop_for_code_point(1024 + 5), 9);
    assert_eq!(table.get_prop_for_code_point(2048), 0);
}

#[test]
fn calendar_data_for_each_kind() {
    assert_eq!(data_calendar_for_kind(AnyCalendarKind::Gregorian), Ok(CldrCalendar::Gregorian));
    assert_eq!(data_calendar_for_kind(AnyCalendarKind::Roc), Ok(CldrCalendar::Roc));
    assert_eq!(
        data_calendar_for_kind(AnyCalendarKind::EthiopianAmeteAlem),
        Ok(CldrCalendar::Ethiopian)
    );
    assert_eq!(
        data_calendar_for_kind(AnyCalendarKind::Other),
        Err("Don't know how to load data for specified calendar")
    );
}

#[test]
fn calendar_identifiers() {
    assert_eq!(CldrCalendar::Gregorian.default_bcp_47_identifier(), "gregory");
    assert_eq!(CldrCalendar::IslamicTabular.default_bcp_47_identifier(), "tbla");
    assert!(CldrCalendar::Gregorian.is_identifier_allowed_for_calendar("gregory"));
    assert!(!CldrCalendar::Gregorian.is_identifier_allowed_for_calendar("gregor"));
    assert!(!CldrCalendar::Buddhist.is_identifier_allowed_for_calendar("gregory"));
    assert!(CldrCalendar::Ethiopian.is_identifier_allowed_for_calendar("ethiopic"));
    assert!(CldrCalendar::Ethiopian.is_identifier_allowed_for_calendar("ethioaa"));
    assert!(!CldrCalendar::Coptic.is_identifier_allowed_for_calendar("ethioaa"));
}
