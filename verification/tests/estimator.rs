//! Tests of the exponential-decay bandwidth estimator and the counter
//! accessors.

use netstate::ui_state::{calc_avg_bandwidth, Bandwidth, ConnectionData, NetworkData};

#[test]
fn cold_start_returns_raw_value() {
    assert_eq!(calc_avg_bandwidth(0, 0), 0);
    assert_eq!(calc_avg_bandwidth(0, 500), 500);
    assert_eq!(calc_avg_bandwidth(0, u128::MAX), u128::MAX);
}

#[test]
fn decay_is_rounded_mean() {
    assert_eq!(calc_avg_bandwidth(1000, 2000), 1500);
    assert_eq!(calc_avg_bandwidth(2000, 1000), 1500);
    assert_eq!(calc_avg_bandwidth(2, 2), 2);
    // Halves round up.
    assert_eq!(calc_avg_bandwidth(1, 2), 2);
    assert_eq!(calc_avg_bandwidth(3, 0), 2);
    assert_eq!(calc_avg_bandwidth(1, 1000), 501);
}

#[test]
fn decay_has_no_overflow_at_the_top_of_the_range() {
    assert_eq!(calc_avg_bandwidth(u128::MAX, u128::MAX), u128::MAX);
    assert_eq!(calc_avg_bandwidth(u128::MAX, 1), 1 + (u128::MAX - 1) / 2);
}

#[test]
fn network_data_accessors() {
    let d = NetworkData {
        total_bytes_downloaded: 2000,
        total_bytes_uploaded: 64,
        prev_total_bytes_downloaded: 1000,
        prev_total_bytes_uploaded: 0,
        connection_count: 3,
    };
    assert_eq!(d.get_total_bytes_downloaded(), 2000);
    assert_eq!(d.get_total_bytes_uploaded(), 64);
    assert_eq!(d.get_avg_bytes_downloaded(), 1500);
    assert_eq!(d.get_avg_bytes_uploaded(), 64);
}

#[test]
fn connection_data_accessors() {
    let d = ConnectionData {
        total_bytes_downloaded: 10,
        total_bytes_uploaded: 7,
        prev_total_bytes_downloaded: 5,
        prev_total_bytes_uploaded: 8,
        process_name: String::from("sshd"),
        interface_name: String::from("eth0"),
    };
    assert_eq!(d.get_total_bytes_downloaded(), 10);
    assert_eq!(d.get_total_bytes_uploaded(), 7);
    // (5 + 10 + 1) / 2 = 8
    assert_eq!(d.get_avg_bytes_downloaded(), 8);
    // (8 + 7 + 1) / 2 = 8
    assert_eq!(d.get_avg_bytes_uploaded(), 8);
}

#[test]
fn default_counters_are_zero() {
    let n = NetworkData::default();
    assert_eq!(n.total_bytes_downloaded, 0);
    assert_eq!(n.total_bytes_uploaded, 0);
    assert_eq!(n.prev_total_bytes_downloaded, 0);
    assert_eq!(n.prev_total_bytes_uploaded, 0);
    assert_eq!(n.connection_count, 0);
    let c = ConnectionData::default();
    assert_eq!(c.total_bytes_downloaded, 0);
    assert_eq!(c.process_name, "");
    assert_eq!(c.interface_name, "");
}
