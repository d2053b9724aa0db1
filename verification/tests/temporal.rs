use datalog::temporal::{
    parse_date, parse_duration, parse_temporal, parse_timestamp, parse_timestamp_lenient, Date, Duration,
    Temporal, TemporalError, Timestamp, US_PER_S,
};

#[test]
fn a_day_that_does_not_exist_names_the_field() {
    assert_eq!(
        Date::from_ymd(2026, 2, 30),
        Err(TemporalError::Component {
            field: "day",
            value: "30".to_string()
        })
    );
    assert!(Date::from_ymd(2024, 2, 29).is_ok(), "2024 is a leap year");
    assert!(Date::from_ymd(2023, 2, 29).is_err(), "2023 is not");
    assert!(Date::from_ymd(2000, 2, 29).is_ok(), "2000 is a leap year");
    assert!(Date::from_ymd(1900, 2, 29).is_err(), "1900 is not");
}

#[test]
fn duration_prints_the_canonical_decomposition() {
    assert_eq!(parse_duration("90m").unwrap().render(), "1h30m");
    assert_eq!(parse_duration("36h").unwrap().render(), "1d12h");
    assert_eq!(parse_duration("1d12h").unwrap().render(), "1d12h");
    assert_eq!(parse_duration("0s").unwrap().render(), "0s");
    assert_eq!(parse_duration("-1d12h").unwrap().render(), "-1d12h");
    assert_eq!(parse_duration("1500ms").unwrap().render(), "1s500ms");
    assert_eq!(Duration::from_micros(1).render(), "1us");
}

#[test]
fn the_iso_alias_reads_and_prints_friendly() {
    assert_eq!(parse_duration("P1D").unwrap().render(), "1d");
    assert_eq!(parse_duration("PT36H").unwrap().render(), "1d12h");
    assert_eq!(parse_duration("P1DT12H").unwrap().render(), "1d12h");
    assert_eq!(parse_duration("P1W").unwrap().render(), "7d");
    assert_eq!(parse_duration("PT0.5S").unwrap().render(), "500ms");
    assert_eq!(parse_duration("P0.5D").unwrap().render(), "12h");
    assert!(matches!(
        parse_duration("PT0.0000001S"),
        Err(TemporalError::Component {
            field: "fractional component",
            ..
        })
    ));
}

#[test]
fn a_calendar_unit_says_why_it_does_not_exist() {
    let error = parse_duration("P1M").expect_err("months are excluded");
    assert_eq!(error, TemporalError::Unit("M".to_string()));
    assert!(
        error.message().contains("no fixed length"),
        "{}",
        error.message()
    );
    assert!(error.suggestion().is_some_and(|s| s.contains("truncate")));
    assert_eq!(
        parse_duration("P1Y"),
        Err(TemporalError::Unit("Y".to_string()))
    );
    assert_eq!(parse_duration("1m").unwrap().micros(), 60 * US_PER_S);
}

#[test]
fn duration_components_are_largest_first_and_used_once() {
    assert_eq!(parse_duration("1h1d"), Err(TemporalError::Order));
    assert_eq!(parse_duration("1d1d"), Err(TemporalError::Order));
    assert_eq!(
        parse_duration("1x"),
        Err(TemporalError::Unit("x".to_string()))
    );
    assert_eq!(parse_duration("d"), Err(TemporalError::Shape));
}

#[test]
fn a_timestamp_carries_only_the_precision_it_can_hold() {
    let ts = parse_timestamp("2026-08-19T10:30:00.5").unwrap();
    assert_eq!(ts.render(), "2026-08-19T10:30:00.5");
    assert_eq!(
        parse_timestamp("2026-08-19T10:30:00").unwrap().render(),
        "2026-08-19T10:30:00"
    );
    assert!(matches!(
        parse_timestamp("2026-08-19T10:30:00.1234567"),
        Err(TemporalError::Component {
            field: "fractional second",
            ..
        })
    ));
    assert!(matches!(
        parse_timestamp("2026-08-19T10:61:00"),
        Err(TemporalError::Component {
            field: "minute",
            ..
        })
    ));
    assert_eq!(
        parse_timestamp("2026-08-19T10:30:00Z"),
        Err(TemporalError::Shape)
    );
}

#[test]
fn the_shape_test_separates_the_three_forms() {
    assert!(matches!(parse_temporal("2026-08-19"), Ok(Temporal::Date(_))));
    assert!(matches!(
        parse_temporal("2026-08-19T10:30:00"),
        Ok(Temporal::Timestamp(_))
    ));
    assert!(matches!(parse_temporal("1d12h"), Ok(Temporal::Duration(_))));
    assert!(matches!(parse_temporal("-1d"), Ok(Temporal::Duration(_))));
    assert!(matches!(parse_temporal("P1D"), Ok(Temporal::Duration(_))));
    assert_eq!(parse_temporal("2026-8-19"), Err(TemporalError::Shape));
}

#[test]
fn declared_column_coercion_is_the_permissive_reader() {
    assert_eq!(
        parse_timestamp_lenient("2026-08-19 10:30:00").unwrap().render(),
        "2026-08-19T10:30:00"
    );
    assert_eq!(
        parse_timestamp_lenient("2026-08-19").unwrap(),
        Date::from_ymd(2026, 8, 19).unwrap().at_midnight()
    );
    assert_eq!(
        parse_timestamp_lenient("2026-08-19T10:30:00+01:00").unwrap().render(),
        "2026-08-19T09:30:00"
    );
    assert_eq!(
        parse_timestamp_lenient("2026-08-19T10:30:00-05:00").unwrap().render(),
        "2026-08-19T15:30:00"
    );
    assert_eq!(
        parse_timestamp_lenient("2026-08-19T10:30:00Z").unwrap().render(),
        "2026-08-19T10:30:00"
    );
}

#[test]
fn midnight_and_the_day_of_a_timestamp_are_inverse() {
    let date = Date::from_ymd(2026, 8, 19).unwrap();
    assert_eq!(date.at_midnight().date(), date);
    let ts = parse_timestamp("2026-08-19T10:30:00").unwrap();
    assert_eq!(ts.date(), date);
    let old = parse_timestamp("1900-03-04T01:00:00").unwrap();
    assert_eq!(old.date(), Date::from_ymd(1900, 3, 4).unwrap());
}

#[test]
fn date_text_round_trips_over_a_sweep_of_days() {
    let mut days: i64 = -719_528;
    while days <= 2_932_896 {
        let date = Date::from_days(days).unwrap();
        assert_eq!(parse_date(&date.render()), Ok(date));
        assert_eq!(parse_temporal(&date.render()), Ok(Temporal::Date(date)));
        days += 997;
    }
}

#[test]
fn duration_text_round_trips_over_a_sweep() {
    let mut micros: i64 = -400_000_000_000_000;
    while micros < 400_000_000_000_000 {
        let duration = Duration::from_micros(micros);
        assert_eq!(parse_duration(&duration.render()), Ok(duration));
        micros += 7_777_777_777_777;
    }
}

#[test]
fn timestamp_text_round_trips_over_a_sweep() {
    let first = Date::from_ymd(0, 1, 1).unwrap().at_midnight().micros();
    let last = Date::from_ymd(9999, 12, 31).unwrap().at_midnight().micros();
    let mut micros = first;
    let mut fraction: i64 = 0;
    while micros <= last {
        let ts = datalog::temporal::Timestamp::from_micros(micros + fraction).unwrap();
        assert_eq!(parse_timestamp(&ts.render()), Ok(ts));
        micros += 3_999_999_999_999;
        fraction = (fraction + 123_457) % US_PER_S;
    }
}

#[test]
fn civil_conversion_round_trips_at_the_range_ends_and_leap_days() {
    for (y, m, d) in [(0, 1, 1), (0, 2, 29), (1900, 2, 28), (2000, 2, 29), (2024, 12, 31), (9999, 12, 31)] {
        let date = Date::from_ymd(y, m, d).unwrap();
        assert_eq!(date.ymd(), (y, m, d));
        assert_eq!(Date::from_days(date.days() as i64), Ok(date));
    }
}

#[test]
fn the_widest_durations_round_trip() {
    for micros in [i64::MAX, -i64::MAX, 1, -1, 86_400_000_000 + 1] {
        let duration = Duration::from_micros(micros);
        assert_eq!(parse_duration(&duration.render()), Ok(duration));
    }
}

#[test]
fn a_day_count_beyond_the_calendar_is_out_of_range() {
    assert_eq!(Date::from_days(i64::MAX), Err(TemporalError::Range));
    assert_eq!(Date::from_days(i64::MIN), Err(TemporalError::Range));
    assert_eq!(Date::from_days(0).map(|d| d.days()), Ok(0));
}

#[test]
fn a_microsecond_of_second_must_be_below_one_second() {
    assert_eq!(
        Timestamp::from_parts(2024, 1, 5, 13, 4, 5, 1_000_000),
        Err(TemporalError::Component { field: "microsecond", value: "1000000".to_string() })
    );
    assert!(Timestamp::from_parts(2024, 1, 5, 13, 4, 5, 999_999).is_ok());
}

#[test]
fn civil_dates_come_back_from_their_day_counts() {
    for (y, m, d) in [(2024, 2, 29), (2000, 2, 29), (1970, 1, 1), (1969, 12, 31), (1600, 3, 1), (9999, 12, 31)] {
        let date = Date::from_ymd(y, m, d).unwrap();
        assert_eq!(date.ymd(), (y, m, d));
    }
}
