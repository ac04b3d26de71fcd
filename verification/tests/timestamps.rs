use taxi_data_api::timefmt::format_rfc3339;
use taxi_data_api::timefmt::parse_rfc3339;

#[test]
fn formats_the_epoch() {
    assert_eq!(format_rfc3339(0), "1970-01-01T00:00:00.000000000Z");
}

#[test]
fn formats_a_known_instant() {
    assert_eq!(format_rfc3339(1700000000000000000), "2023-11-14T22:13:20.000000000Z");
}

#[test]
fn formats_just_before_the_epoch() {
    assert_eq!(format_rfc3339(-1), "1969-12-31T23:59:59.999999999Z");
}

#[test]
fn formats_the_range_ends() {
    assert_eq!(format_rfc3339(i64::MAX), "2262-04-11T23:47:16.854775807Z");
    assert_eq!(format_rfc3339(i64::MIN), "1677-09-21T00:12:43.145224192Z");
}

#[test]
fn parses_what_it_formats() {
    let instants = [
        0i64,
        1,
        -1,
        1700000000000000000,
        -2208988800000000000,
        951782400000000000,
        i64::MAX,
        i64::MIN,
        86399999999999,
        -86400000000000,
    ];
    for t in instants {
        assert_eq!(parse_rfc3339(&format_rfc3339(t)), Some(t));
    }
}

#[test]
fn parses_a_written_timestamp() {
    assert_eq!(parse_rfc3339("2023-11-14T22:13:20.000000000Z"), Some(1700000000000000000));
    assert_eq!(parse_rfc3339("1970-01-01T00:00:00.000000001Z"), Some(1));
}

#[test]
fn rejects_wrong_length() {
    assert_eq!(parse_rfc3339(""), None);
    assert_eq!(parse_rfc3339("2023-11-14T22:13:20Z"), None);
    assert_eq!(parse_rfc3339("2023-11-14T22:13:20.000000000+00:00"), None);
}

#[test]
fn rejects_wrong_separators() {
    assert_eq!(parse_rfc3339("2023 11-14T22:13:20.000000000Z"), None);
    assert_eq!(parse_rfc3339("2023-11-14t22:13:20.000000000Z"), None);
    assert_eq!(parse_rfc3339("2023-11-14T22:13:20.000000000z"), None);
}

#[test]
fn rejects_non_digits() {
    assert_eq!(parse_rfc3339("2023-1x-14T22:13:20.000000000Z"), None);
    assert_eq!(parse_rfc3339("y023-11-14T22:13:20.000000000Z"), None);
}

#[test]
fn rejects_invalid_fields() {
    assert_eq!(parse_rfc3339("2023-13-14T22:13:20.000000000Z"), None);
    assert_eq!(parse_rfc3339("2023-00-14T22:13:20.000000000Z"), None);
    assert_eq!(parse_rfc3339("2023-11-31T22:13:20.000000000Z"), None);
    assert_eq!(parse_rfc3339("2023-02-29T00:00:00.000000000Z"), None);
    assert_eq!(parse_rfc3339("2024-02-29T00:00:00.000000000Z"), Some(1709164800000000000));
    assert_eq!(parse_rfc3339("2023-11-14T24:00:00.000000000Z"), None);
    assert_eq!(parse_rfc3339("2023-11-14T22:60:20.000000000Z"), None);
    assert_eq!(parse_rfc3339("2023-11-14T22:13:60.000000000Z"), None);
}

#[test]
fn rejects_out_of_range_instants() {
    assert_eq!(parse_rfc3339("2262-04-11T23:47:16.854775807Z"), Some(i64::MAX));
    assert_eq!(parse_rfc3339("2262-04-11T23:47:16.854775808Z"), None);
    assert_eq!(parse_rfc3339("1677-09-21T00:12:43.145224192Z"), Some(i64::MIN));
    assert_eq!(parse_rfc3339("1677-09-21T00:12:43.145224191Z"), None);
    assert_eq!(parse_rfc3339("9999-12-31T23:59:59.999999999Z"), None);
    assert_eq!(parse_rfc3339("0001-01-01T00:00:00.000000000Z"), None);
}

#[test]
fn float_columns_round_trip_through_their_bits() {
    let values = [0.0f64, 2.5, -19.75, 1e-300, f64::MAX];
    for v in values {
        assert_eq!(f64::from_bits(v.to_bits()), v);
    }
}
