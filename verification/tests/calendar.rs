use taxi_data_api::calendar::civil_from_days;
use taxi_data_api::calendar::div_floor;
use taxi_data_api::calendar::get_year_and_month;
use taxi_data_api::calendar::mod_floor;

#[test]
fn resolves_known_november_2023_timestamp() {
    // 1700000000000 ms is 2023-11-14T22:13:20Z.
    assert_eq!(get_year_and_month(1700000000000), (2023, 11));
}

#[test]
fn resolves_epoch() {
    assert_eq!(get_year_and_month(0), (1970, 1));
}

#[test]
fn resolves_last_millisecond_before_epoch_by_truncation() {
    // -1 ms truncates to second 0 under the request path's division.
    assert_eq!(get_year_and_month(-1), (1970, 1));
}

#[test]
fn resolves_a_full_second_before_epoch() {
    assert_eq!(get_year_and_month(-1000), (1969, 12));
}

#[test]
fn resolves_leap_day_of_a_leap_century() {
    // 951782400 s is 2000-02-29T00:00:00Z.
    assert_eq!(get_year_and_month(951782400000), (2000, 2));
}

#[test]
fn resolves_nineteen_hundred() {
    // -2208988800 s is 1900-01-01T00:00:00Z; 1900 is not a leap year.
    assert_eq!(get_year_and_month(-2208988800000), (1900, 1));
    assert_eq!(get_year_and_month(-2208988800000 + 58 * 86400000), (1900, 2));
    assert_eq!(get_year_and_month(-2208988800000 + 59 * 86400000), (1900, 3));
}

#[test]
fn civil_from_days_hits_known_dates() {
    assert_eq!(civil_from_days(0), (1970, 1, 1));
    assert_eq!(civil_from_days(-1), (1969, 12, 31));
    assert_eq!(civil_from_days(19662), (2023, 11, 1));
    assert_eq!(civil_from_days(11016), (2000, 2, 29));
}

#[test]
fn floor_division_and_remainder() {
    assert_eq!(div_floor(7, 2), 3);
    assert_eq!(div_floor(-7, 2), -4);
    assert_eq!(div_floor(-8, 2), -4);
    assert_eq!(div_floor(i64::MIN, 1000), -9223372036854776);
    assert_eq!(mod_floor(7, 3), 1);
    assert_eq!(mod_floor(-7, 3), 2);
    assert_eq!(mod_floor(-9, 3), 0);
}
