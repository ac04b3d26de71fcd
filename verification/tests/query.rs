use taxi_data_api::trips::get_trips;
use taxi_data_api::trips::Trip;

fn row(pickup_ns: i64) -> Trip {
    Trip { pickup_ns, dropoff_ns: pickup_ns + 600_000_000_000, distance_bits: 0, fare_bits: 0 }
}

#[test]
fn bound_keeps_rows_at_or_after_it_in_order() {
    // Rows at T1 < T2 < T3 with the bound at T2: exactly T2 and T3, in order.
    let rows = vec![row(1_000_000), row(2_000_000), row(3_000_000)];
    let r = get_trips(&rows, 2, 10);
    assert_eq!(r.len(), 2);
    assert_eq!(r[0].pickup_ns, 2_000_000);
    assert_eq!(r[1].pickup_ns, 3_000_000);
}

#[test]
fn limit_one_returns_the_earliest_qualifying_row() {
    let rows = vec![row(3_000_000), row(1_000_000), row(2_000_000)];
    let r = get_trips(&rows, 1, 1);
    assert_eq!(r.len(), 1);
    assert_eq!(r[0].pickup_ns, 1_000_000);
}

#[test]
fn sorts_unsorted_input_ascending() {
    let rows = vec![row(5_000_000), row(4_000_000), row(9_000_000), row(6_000_000)];
    let r = get_trips(&rows, 0, 100);
    let pickups: Vec<i64> = r.iter().map(|t| t.pickup_ns).collect();
    assert_eq!(pickups, vec![4_000_000, 5_000_000, 6_000_000, 9_000_000]);
}

#[test]
fn empty_partition_gives_empty_result() {
    let rows: Vec<Trip> = Vec::new();
    assert_eq!(get_trips(&rows, 0, 10).len(), 0);
}

#[test]
fn zero_limit_gives_empty_result() {
    let rows = vec![row(1_000_000), row(2_000_000)];
    assert_eq!(get_trips(&rows, 0, 0).len(), 0);
}

#[test]
fn bound_strictly_after_all_rows_gives_empty_result() {
    let rows = vec![row(1_000_000), row(2_000_000)];
    assert_eq!(get_trips(&rows, 3, 10).len(), 0);
}

#[test]
fn equal_pickups_are_kept_together() {
    let a = Trip { pickup_ns: 7_000_000, dropoff_ns: 1, distance_bits: 10, fare_bits: 20 };
    let b = Trip { pickup_ns: 7_000_000, dropoff_ns: 2, distance_bits: 30, fare_bits: 40 };
    let rows = vec![a, b];
    let all = get_trips(&rows, 7, 5);
    assert_eq!(all.len(), 2);
    assert_eq!(all[0].pickup_ns, 7_000_000);
    assert_eq!(all[1].pickup_ns, 7_000_000);
    let one = get_trips(&rows, 7, 1);
    assert_eq!(one.len(), 1);
    assert!(one[0] == a || one[0] == b);
}

#[test]
fn negative_count_wraps_through_the_32_bit_cap() {
    // The request count is narrowed to u32; -1 becomes u32::MAX.
    let rows = vec![row(1_000_000), row(2_000_000), row(3_000_000)];
    assert_eq!(get_trips(&rows, 0, -1).len(), 3);
    // 1 << 32 truncates to a limit of zero.
    assert_eq!(get_trips(&rows, 0, 4294967296).len(), 0);
}

#[test]
fn extreme_bounds_do_not_overflow() {
    let rows = vec![row(i64::MIN), row(0), row(i64::MAX)];
    assert_eq!(get_trips(&rows, i64::MAX, 10).len(), 0);
    assert_eq!(get_trips(&rows, i64::MIN, 10).len(), 3);
    // A bound of exactly i64::MAX nanoseconds cannot be expressed in whole
    // milliseconds; the nearest expressible bounds sit on either side.
    assert_eq!(get_trips(&rows, 9223372036854, 10).len(), 1);
    assert_eq!(get_trips(&rows, 9223372036855, 10).len(), 0);
}

#[test]
fn other_columns_pass_through_untouched() {
    let t = Trip {
        pickup_ns: 5_000_000,
        dropoff_ns: 77,
        distance_bits: 2.5f64.to_bits(),
        fare_bits: 19.75f64.to_bits(),
    };
    let rows = vec![t];
    let r = get_trips(&rows, 0, 1);
    assert_eq!(r[0].dropoff_ns, 77);
    assert_eq!(f64::from_bits(r[0].distance_bits), 2.5);
    assert_eq!(f64::from_bits(r[0].fare_bits), 19.75);
}
