//! Verified core of a taxi-trip data service.
//!
//! The library holds the logic of the service: resolving an epoch timestamp to
//! the calendar month whose partition file must be consulted, deriving the
//! partition's local filename and remote URL, the query over a partition's
//! rows (filter by pickup time, sort ascending, cap the count), and the
//! RFC 3339 rendering of the timestamps that the HTTP layer serves.
//! The surrounding process (HTTP server, file download, parquet decoding)
//! lives outside and hands this library plain values.

pub mod acquire;
pub mod calendar;
pub mod digits;
pub mod timefmt;
pub mod trips;
