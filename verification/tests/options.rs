use kafka_light::options::{count_digits, duration_nanos, parsehuman, parseopts, DurationError};

const S: u64 = 1_000_000_000;

#[test]
fn durations_for_humans() {
    assert_eq!(parsehuman("15 min"), Ok(900 * S));
    assert_eq!(parsehuman("10 s"), Ok(10 * S));
    assert_eq!(parsehuman("5 s"), Ok(5 * S));
    assert_eq!(parsehuman("10s"), Ok(10 * S));
    assert_eq!(parsehuman("15min"), Ok(900 * S));
    assert_eq!(parsehuman("2h"), Ok(7200 * S));
    assert_eq!(parsehuman("1m 30s 250ms"), Ok(90 * S + 250_000_000));
    assert_eq!(parsehuman("17ns"), Ok(17));
}

#[test]
fn texts_that_are_no_durations() {
    assert_eq!(parsehuman(""), Err(DurationError::Unparsable));
    assert_eq!(parsehuman("soon"), Err(DurationError::Unparsable));
    assert_eq!(parsehuman("10"), Err(DurationError::Unparsable));
    assert_eq!(parsehuman("10 parsecs"), Err(DurationError::Unparsable));
    assert_eq!(
        DurationError::Unparsable.message("soon"),
        "Not a parsaeble time: soon"
    );
}

#[test]
fn durations_beyond_the_range() {
    assert_eq!(parsehuman("584 years"), Ok(584 * 31_557_600 * S));
    assert_eq!(parsehuman("585 years"), Err(DurationError::TooLong));
    assert_eq!(parsehuman("99999999999 s"), Err(DurationError::TooLong));
    assert_eq!(parsehuman("100000000000 ns"), Err(DurationError::TooManyDigits));
    assert_eq!(parsehuman("1h 30m 15s 500ms 250us 125ns"), Err(DurationError::TooManyDigits));
    assert_eq!(count_digits("1h 30m 15s 500ms 250us 125ns"), 14);
    assert_eq!(count_digits("no digits"), 0);
}

#[test]
fn seconds_and_nanoseconds_add_up() {
    assert_eq!(duration_nanos(None), Err(DurationError::Unparsable));
    assert_eq!(duration_nanos(Some((0, 0))), Ok(0));
    assert_eq!(duration_nanos(Some((3, 7))), Ok(3 * S + 7));
    assert_eq!(duration_nanos(Some((18_446_744_073, 709_551_615))), Ok(u64::MAX));
    assert_eq!(duration_nanos(Some((18_446_744_073, 709_551_616))), Err(DurationError::TooLong));
    assert_eq!(duration_nanos(Some((18_446_744_074, 0))), Err(DurationError::TooLong));
    assert_eq!(duration_nanos(Some((u64::MAX, 0))), Err(DurationError::TooLong));
}

#[test]
fn client_options_split_at_the_first_equals_sign() {
    assert_eq!(
        parseopts("security.protocol=SSL").unwrap(),
        ("security.protocol".to_string(), "SSL".to_string())
    );
    assert_eq!(parseopts("a=b=c").unwrap(), ("a".to_string(), "b=c".to_string()));
    assert_eq!(parseopts("=").unwrap(), (String::new(), String::new()));
    assert_eq!(parseopts("k=").unwrap(), ("k".to_string(), String::new()));
    assert_eq!(parseopts("ключ=значение").unwrap(), ("ключ".to_string(), "значение".to_string()));
}

#[test]
fn client_options_without_equals_sign_are_refused() {
    let err = parseopts("verbose").unwrap_err();
    assert_eq!(err.arg, "verbose");
    assert_eq!(err.message(), "Expected a parameter of form config.key=value, got verbose");
    assert!(parseopts("").is_err());
}
