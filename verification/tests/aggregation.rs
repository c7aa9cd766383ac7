//! Tests of the snapshot aggregator: grouping, smoothing across ticks,
//! ignored entries, stale-state dropping and overflow reporting.

use netstate::net::{Connection, ConnectionInfo, Socket, Utilization};
use netstate::ui_state::{Bandwidth, ConnectionData, NetworkData, UIState};

fn conn(local_ip: u32, local_port: u16, remote_ip: u32, remote_port: u16) -> Connection {
    Connection {
        local_socket: Socket { ip: local_ip, port: local_port },
        remote_socket: Socket { ip: remote_ip, port: remote_port },
    }
}

fn info(interface: &str, down: u128, up: u128) -> ConnectionInfo {
    ConnectionInfo {
        interface_name: String::from(interface),
        total_bytes_downloaded: down,
        total_bytes_uploaded: up,
    }
}

fn proc_entry<'a>(state: &'a UIState, name: &str) -> Option<&'a NetworkData> {
    state.processes.iter().find(|e| e.0 == name).map(|e| &e.1)
}

fn addr_entry(state: &UIState, ip: u32) -> Option<&NetworkData> {
    state.remote_addresses.iter().find(|e| e.0 == ip).map(|e| &e.1)
}

fn conn_entry<'a>(state: &'a UIState, c: &Connection) -> Option<&'a ConnectionData> {
    state.connections.iter().find(|e| &e.0 == c).map(|e| &e.1)
}

#[test]
fn two_ticks_smooth_the_rate() {
    let c = conn(10, 4000, 99, 443);

    // Tick 1: cold start, raw 1000 down.
    let state1 = UIState::new(
        vec![(c, String::from("P"))],
        Utilization { connections: vec![(c, info("eth0", 1000, 0))] },
        &UIState::default(),
    );
    let p1 = proc_entry(&state1, "P").expect("process entry");
    assert_eq!(p1.total_bytes_downloaded, 1000);
    assert_eq!(p1.get_avg_bytes_downloaded(), 1000);
    assert_eq!(p1.connection_count, 1);
    let e1 = conn_entry(&state1, &c).expect("connection entry");
    assert_eq!(e1.prev_total_bytes_downloaded, 0);
    assert_eq!(e1.get_avg_bytes_downloaded(), 1000);

    // Tick 2: the carried average is 1000, the raw counter 2000.
    let state2 = UIState::new(
        vec![(c, String::from("P"))],
        Utilization { connections: vec![(c, info("eth0", 2000, 0))] },
        &state1,
    );
    let p2 = proc_entry(&state2, "P").expect("process entry");
    assert_eq!(p2.total_bytes_downloaded, 2000);
    assert_eq!(p2.prev_total_bytes_downloaded, 1000);
    assert_eq!(p2.get_avg_bytes_downloaded(), 1500);
    let e2 = conn_entry(&state2, &c).expect("connection entry");
    assert_eq!(e2.prev_total_bytes_downloaded, 1000);
    assert_eq!(e2.get_avg_bytes_downloaded(), 1500);
    assert_eq!(state2.total_bytes_downloaded, 2000);
}

#[test]
fn one_process_two_remote_addresses() {
    let c1 = conn(10, 4000, 1, 80);
    let c2 = conn(10, 4001, 2, 80);
    let state = UIState::new(
        vec![(c1, String::from("P")), (c2, String::from("P"))],
        Utilization {
            connections: vec![(c1, info("eth0", 100, 50)), (c2, info("eth0", 100, 50))],
        },
        &UIState::default(),
    );

    assert_eq!(state.processes.len(), 1);
    let p = proc_entry(&state, "P").expect("process entry");
    assert_eq!(p.total_bytes_downloaded, 200);
    assert_eq!(p.total_bytes_uploaded, 100);
    assert_eq!(p.connection_count, 2);

    assert_eq!(state.remote_addresses.len(), 2);
    for ip in [1, 2] {
        let a = addr_entry(&state, ip).expect("remote entry");
        assert_eq!(a.total_bytes_downloaded, 100);
        assert_eq!(a.total_bytes_uploaded, 50);
        assert_eq!(a.connection_count, 1);
    }

    assert_eq!(state.total_bytes_downloaded, 200);
    assert_eq!(state.total_bytes_uploaded, 100);
}

#[test]
fn connection_entries_are_stamped() {
    let c = conn(10, 4000, 8, 53);
    let state = UIState::new(
        vec![(c, String::from("resolver"))],
        Utilization { connections: vec![(c, info("wlan0", 12, 34))] },
        &UIState::default(),
    );
    let e = conn_entry(&state, &c).expect("connection entry");
    assert_eq!(e.process_name, "resolver");
    assert_eq!(e.interface_name, "wlan0");
    assert_eq!(e.total_bytes_downloaded, 12);
    assert_eq!(e.total_bytes_uploaded, 34);
}

#[test]
fn unmatched_process_entry_is_ignored() {
    let seen = conn(10, 4000, 1, 80);
    let gone = conn(10, 4001, 2, 80);
    let state = UIState::new(
        vec![(seen, String::from("alive")), (gone, String::from("closed"))],
        Utilization { connections: vec![(seen, info("eth0", 10, 0))] },
        &UIState::default(),
    );
    assert!(conn_entry(&state, &gone).is_none());
    assert!(proc_entry(&state, "closed").is_none());
    assert!(addr_entry(&state, 2).is_none());
    assert_eq!(state.processes.len(), 1);
    assert_eq!(state.remote_addresses.len(), 1);
    assert_eq!(state.connections.len(), 1);
    assert_eq!(state.total_bytes_downloaded, 10);
    assert_eq!(state.total_bytes_uploaded, 0);
}

#[test]
fn unconsumed_utilization_entry_is_ignored() {
    let owned = conn(10, 4000, 1, 80);
    let orphan = conn(10, 4001, 2, 80);
    let state = UIState::new(
        vec![(owned, String::from("P"))],
        Utilization {
            connections: vec![(owned, info("eth0", 10, 0)), (orphan, info("eth0", 99, 99))],
        },
        &UIState::default(),
    );
    assert!(conn_entry(&state, &orphan).is_none());
    assert_eq!(state.total_bytes_downloaded, 10);
    assert_eq!(state.total_bytes_uploaded, 0);
}

#[test]
fn vanished_entities_are_dropped() {
    let old_conn = conn(10, 4000, 1, 80);
    let state1 = UIState::new(
        vec![(old_conn, String::from("old"))],
        Utilization { connections: vec![(old_conn, info("eth0", 10, 10))] },
        &UIState::default(),
    );
    assert!(proc_entry(&state1, "old").is_some());

    // Next tick: the old connection no longer shows up; a new one does.
    let new_conn = conn(10, 5000, 2, 443);
    let state2 = UIState::new(
        vec![(new_conn, String::from("new"))],
        Utilization { connections: vec![(new_conn, info("eth0", 5, 5))] },
        &state1,
    );
    assert!(proc_entry(&state2, "old").is_none());
    assert!(addr_entry(&state2, 1).is_none());
    assert!(conn_entry(&state2, &old_conn).is_none());
    assert_eq!(state2.processes.len(), 1);
    assert_eq!(state2.remote_addresses.len(), 1);
    assert_eq!(state2.connections.len(), 1);
}

#[test]
fn empty_inputs_give_empty_state() {
    let state = UIState::new(
        Vec::new(),
        Utilization::new(),
        &UIState::default(),
    );
    assert!(state.processes.is_empty());
    assert!(state.remote_addresses.is_empty());
    assert!(state.connections.is_empty());
    assert_eq!(state.total_bytes_downloaded, 0);
    assert_eq!(state.total_bytes_uploaded, 0);
}

#[test]
fn raw_total_overflow_is_reported() {
    let c1 = conn(10, 4000, 1, 80);
    let c2 = conn(10, 4001, 1, 80);
    let r = UIState::build(
        vec![(c1, String::from("P")), (c2, String::from("P"))],
        Utilization {
            connections: vec![(c1, info("eth0", u128::MAX, 0)), (c2, info("eth0", 1, 0))],
        },
        &UIState::default(),
    );
    assert!(r.is_none());
}

#[test]
fn carried_history_overflow_is_reported() {
    let c1 = conn(10, 4000, 1, 80);
    let c2 = conn(10, 4001, 1, 80);
    // A previous state in which each connection carries an average of
    // u128::MAX into the next tick (cold history, huge raw counter).
    let huge = ConnectionData {
        total_bytes_downloaded: 0,
        total_bytes_uploaded: u128::MAX,
        prev_total_bytes_downloaded: 0,
        prev_total_bytes_uploaded: 0,
        process_name: String::from("P"),
        interface_name: String::from("eth0"),
    };
    let state1 = UIState {
        processes: Vec::new(),
        remote_addresses: Vec::new(),
        connections: vec![(c1, huge.clone()), (c2, huge)],
        total_bytes_downloaded: 0,
        total_bytes_uploaded: 0,
    };
    // Tick 2: the per-process carried history would be twice u128::MAX.
    let r = UIState::build(
        vec![(c1, String::from("P")), (c2, String::from("P"))],
        Utilization {
            connections: vec![(c1, info("eth0", 0, 0)), (c2, info("eth0", 0, 0))],
        },
        &state1,
    );
    assert!(r.is_none());
}

#[test]
fn build_agrees_with_new_when_counters_fit() {
    let c = conn(10, 4000, 1, 80);
    let built = UIState::build(
        vec![(c, String::from("P"))],
        Utilization { connections: vec![(c, info("eth0", 7, 3))] },
        &UIState::default(),
    )
    .expect("counters fit");
    assert_eq!(built.total_bytes_downloaded, 7);
    assert_eq!(built.total_bytes_uploaded, 3);
    assert_eq!(built.connections.len(), 1);
}
