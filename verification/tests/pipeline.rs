//! The request pipeline over a fixture partition, end to end on the
//! library's side: resolve the month, derive the partition path, run the
//! query, and render the response fields.

use taxi_data_api::acquire::partition_filename;
use taxi_data_api::calendar::get_year_and_month;
use taxi_data_api::timefmt::format_rfc3339;
use taxi_data_api::timefmt::parse_rfc3339;
use taxi_data_api::trips::get_trips;
use taxi_data_api::trips::Trip;

fn row(pickup_ns: i64, fare: f64) -> Trip {
    Trip {
        pickup_ns,
        dropoff_ns: pickup_ns + 900_000_000_000,
        distance_bits: 3.25f64.to_bits(),
        fare_bits: fare.to_bits(),
    }
}

#[test]
fn november_request_returns_the_two_late_rows() {
    // from_ms=1700000000000, n_results=2, against a November-2023 fixture of
    // five rows of which two have pickup time at or after the bound.
    let from_ms: i64 = 1700000000000;
    let n_results: i64 = 2;

    let (year, month) = get_year_and_month(from_ms);
    assert_eq!((year, month), (2023, 11));
    assert_eq!(partition_filename(year, month), "yellow_tripdata_2023-11.parquet");

    let fixture = vec![
        row(1699000000000000000, 10.0),
        row(1699500000000000000, 11.5),
        row(1700000001000000000, 12.5),
        row(1699999999999999999, 13.0),
        row(1700000000000000000, 14.25),
    ];
    let r = get_trips(&fixture, from_ms, n_results);
    assert_eq!(r.len(), 2);
    assert_eq!(r[0].pickup_ns, 1700000000000000000);
    assert_eq!(r[1].pickup_ns, 1700000001000000000);
    assert_eq!(f64::from_bits(r[0].fare_bits), 14.25);
    assert_eq!(f64::from_bits(r[1].fare_bits), 12.5);

    // The serialized fields deserialize back to the same logical values.
    let pickup_text = format_rfc3339(r[0].pickup_ns);
    assert_eq!(pickup_text, "2023-11-14T22:13:20.000000000Z");
    assert_eq!(parse_rfc3339(&pickup_text), Some(r[0].pickup_ns));
    let dropoff_text = format_rfc3339(r[0].dropoff_ns);
    assert_eq!(parse_rfc3339(&dropoff_text), Some(r[0].dropoff_ns));
}

#[test]
fn request_count_caps_a_larger_qualifying_set() {
    let fixture = vec![
        row(1700000005000000000, 1.0),
        row(1700000004000000000, 2.0),
        row(1700000003000000000, 3.0),
    ];
    let r = get_trips(&fixture, 1700000000000, 2);
    assert_eq!(r.len(), 2);
    assert_eq!(r[0].pickup_ns, 1700000003000000000);
    assert_eq!(r[1].pickup_ns, 1700000004000000000);
}
