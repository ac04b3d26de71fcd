use taxi_data_api::acquire::acquisition_report_path;
use taxi_data_api::acquire::acquisition_step;
use taxi_data_api::acquire::partition_filename;
use taxi_data_api::acquire::partition_url;
use taxi_data_api::acquire::AcquireAction;

#[test]
fn filename_is_deterministic_and_zero_padded() {
    assert_eq!(partition_filename(2023, 11), "yellow_tripdata_2023-11.parquet");
    assert_eq!(partition_filename(2024, 3), "yellow_tripdata_2024-03.parquet");
    assert_eq!(partition_filename(9, 1), "yellow_tripdata_9-01.parquet");
    assert_eq!(partition_filename(-1, 12), "yellow_tripdata_-1-12.parquet");
}

#[test]
fn url_is_the_fixed_template_over_the_filename() {
    assert_eq!(
        partition_url(2023, 11),
        "https://d37ci6vzurychx.cloudfront.net/trip-data/yellow_tripdata_2023-11.parquet"
    );
}

#[test]
fn second_acquisition_downloads_at_most_once() {
    // A fake remote endpoint that counts the downloads it serves.
    let mut downloads_served = 0;
    let mut file_on_disk = false;

    let (action1, path1) = acquisition_step(2023, 11, file_on_disk);
    assert_eq!(action1, AcquireAction::Download);
    if action1 == AcquireAction::Download {
        downloads_served += 1;
        file_on_disk = true;
    }

    let (action2, path2) = acquisition_step(2023, 11, file_on_disk);
    assert_eq!(action2, AcquireAction::UseLocal);
    if action2 == AcquireAction::Download {
        downloads_served += 1;
    }

    assert_eq!(downloads_served, 1);
    assert_eq!(path1, path2);
}

#[test]
fn failed_download_still_reports_the_local_path() {
    // The service's documented quirk: a non-2xx download still
    // reports the (then nonexistent) local path, so the failure surfaces
    // later as a data-access error in the query step.
    let failed = acquisition_report_path(2023, 11, false);
    let succeeded = acquisition_report_path(2023, 11, true);
    assert_eq!(failed, succeeded);
    assert_eq!(failed, "yellow_tripdata_2023-11.parquet");
}
