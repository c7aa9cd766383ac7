//! The aggregated dashboard state for one tick and the function that builds
//! it from the tick's inputs.

use vstd::prelude::*;

use crate::model::{
    agg_add, agg_zero, all_agg, avg_spec, conn_keys_unique, find_conn, first_ips, first_names,
    has_ip, has_name, addr_agg, lemma_addr_agg_absent, lemma_addr_agg_le_all,
    lemma_addr_agg_upto_le, lemma_all_agg_count, lemma_all_agg_upto_le, lemma_find_conn_at,
    lemma_find_conn_none, lemma_first_ips, lemma_first_names, lemma_proc_agg_absent,
    lemma_proc_agg_le_all, lemma_proc_agg_upto_le, lemma_push_unfold, lemma_rows_upto_conns,
    lemma_rows_upto_len, lemma_rows_upto_nonneg, lemma_rows_upto_prefix, prev_avg_down,
    prev_avg_up, proc_agg, row_nonneg, row_of, rows_nonneg, rows_of, rows_upto, tick_fits, Agg,
    Row,
};
use crate::net::{Connection, ConnectionInfo, Utilization};

verus! {

/// Read access to the bandwidth counters shared by every aggregate kind:
/// the raw totals of the current tick and the smoothed estimates derived
/// from them and from the carried history.
pub trait Bandwidth {
    spec fn spec_total_bytes_downloaded(&self) -> u128;

    spec fn spec_total_bytes_uploaded(&self) -> u128;

    spec fn spec_prev_bytes_downloaded(&self) -> u128;

    spec fn spec_prev_bytes_uploaded(&self) -> u128;

    /// Raw bytes downloaded during the current tick.
    fn get_total_bytes_downloaded(&self) -> (r: u128)
        ensures
            r == self.spec_total_bytes_downloaded(),
    ;

    /// Raw bytes uploaded during the current tick.
    fn get_total_bytes_uploaded(&self) -> (r: u128)
        ensures
            r == self.spec_total_bytes_uploaded(),
    ;

    /// Smoothed download estimate: the decay filter applied to the carried
    /// history and the current raw counter.
    fn get_avg_bytes_downloaded(&self) -> (r: u128)
        ensures
            r as int == avg_spec(
                self.spec_prev_bytes_downloaded() as int,
                self.spec_total_bytes_downloaded() as int,
            ),
    ;

    /// Smoothed upload estimate: the decay filter applied to the carried
    /// history and the current raw counter.
    fn get_avg_bytes_uploaded(&self) -> (r: u128)
        ensures
            r as int == avg_spec(
                self.spec_prev_bytes_uploaded() as int,
                self.spec_total_bytes_uploaded() as int,
            ),
    ;
}

/// Bandwidth counters of a process or remote-address aggregate, together
/// with the number of connections folded into it this tick.
#[derive(Clone, Debug)]
pub struct NetworkData {
    pub total_bytes_downloaded: u128,
    pub total_bytes_uploaded: u128,
    pub prev_total_bytes_downloaded: u128,
    pub prev_total_bytes_uploaded: u128,
    pub connection_count: u128,
}

/// Bandwidth counters of a single connection, together with its owning
/// process and the interface its traffic traversed.
#[derive(Clone, Debug)]
pub struct ConnectionData {
    pub total_bytes_downloaded: u128,
    pub total_bytes_uploaded: u128,
    pub prev_total_bytes_downloaded: u128,
    pub prev_total_bytes_uploaded: u128,
    pub process_name: String,
    pub interface_name: String,
}

impl Default for NetworkData {
    /// A fresh aggregate: all counters zero.
    fn default() -> (r: Self)
        ensures
            r.total_bytes_downloaded == 0,
            r.total_bytes_uploaded == 0,
            r.prev_total_bytes_downloaded == 0,
            r.prev_total_bytes_uploaded == 0,
            r.connection_count == 0,
    {
        NetworkData {
            total_bytes_downloaded: 0,
            total_bytes_uploaded: 0,
            prev_total_bytes_downloaded: 0,
            prev_total_bytes_uploaded: 0,
            connection_count: 0,
        }
    }
}

impl Default for ConnectionData {
    /// A fresh connection entry: zero counters, empty names.
    fn default() -> (r: Self)
        ensures
            r.total_bytes_downloaded == 0,
            r.total_bytes_uploaded == 0,
            r.prev_total_bytes_downloaded == 0,
            r.prev_total_bytes_uploaded == 0,
            r.process_name@ == Seq::<char>::empty(),
            r.interface_name@ == Seq::<char>::empty(),
    {
        ConnectionData {
            total_bytes_downloaded: 0,
            total_bytes_uploaded: 0,
            prev_total_bytes_downloaded: 0,
            prev_total_bytes_uploaded: 0,
            process_name: String::new(),
            interface_name: String::new(),
        }
    }
}

/// The exponential-decay estimator with decay factor one half.  A previous
/// smoothed value of zero is a cold start and yields the raw value
/// unchanged; otherwise the result is the mean of the previous smoothed
/// value and the current raw value, rounded to the nearest integer with
/// halves rounded up.
pub fn calc_avg_bandwidth(prev_bandwidth: u128, curr_bandwidth: u128) -> (r: u128)
    ensures
        r as int == avg_spec(prev_bandwidth as int, curr_bandwidth as int),
{
    if prev_bandwidth == 0 {
        curr_bandwidth
    } else {
        let rounding: u128 = (prev_bandwidth % 2 + curr_bandwidth % 2 + 1) / 2;
        let r: u128 = prev_bandwidth / 2 + curr_bandwidth / 2 + rounding;
        proof {
            let p = prev_bandwidth as int;
            let c = curr_bandwidth as int;
            assert(p == 2 * (p / 2) + p % 2);
            assert(c == 2 * (c / 2) + c % 2);
            assert((p + c + 1) / 2 == p / 2 + c / 2 + (p % 2 + c % 2 + 1) / 2);
        }
        r
    }
}

impl Bandwidth for NetworkData {
    open spec fn spec_total_bytes_downloaded(&self) -> u128 {
        self.total_bytes_downloaded
    }

    open spec fn spec_total_bytes_uploaded(&self) -> u128 {
        self.total_bytes_uploaded
    }

    open spec fn spec_prev_bytes_downloaded(&self) -> u128 {
        self.prev_total_bytes_downloaded
    }

    open spec fn spec_prev_bytes_uploaded(&self) -> u128 {
        self.prev_total_bytes_uploaded
    }

    fn get_total_bytes_downloaded(&self) -> (r: u128) {
        self.total_bytes_downloaded
    }

    fn get_total_bytes_uploaded(&self) -> (r: u128) {
        self.total_bytes_uploaded
    }

    fn get_avg_bytes_downloaded(&self) -> (r: u128) {
        calc_avg_bandwidth(self.prev_total_bytes_downloaded, self.total_bytes_downloaded)
    }

    fn get_avg_bytes_uploaded(&self) -> (r: u128) {
        calc_avg_bandwidth(self.prev_total_bytes_uploaded, self.total_bytes_uploaded)
    }
}

impl Bandwidth for ConnectionData {
    open spec fn spec_total_bytes_downloaded(&self) -> u128 {
        self.total_bytes_downloaded
    }

    open spec fn spec_total_bytes_uploaded(&self) -> u128 {
        self.total_bytes_uploaded
    }

    open spec fn spec_prev_bytes_downloaded(&self) -> u128 {
        self.prev_total_bytes_downloaded
    }

    open spec fn spec_prev_bytes_uploaded(&self) -> u128 {
        self.prev_total_bytes_uploaded
    }

    fn get_total_bytes_downloaded(&self) -> (r: u128) {
        self.total_bytes_downloaded
    }

    fn get_total_bytes_uploaded(&self) -> (r: u128) {
        self.total_bytes_uploaded
    }

    fn get_avg_bytes_downloaded(&self) -> (r: u128) {
        calc_avg_bandwidth(self.prev_total_bytes_downloaded, self.total_bytes_downloaded)
    }

    fn get_avg_bytes_uploaded(&self) -> (r: u128) {
        calc_avg_bandwidth(self.prev_total_bytes_uploaded, self.total_bytes_uploaded)
    }
}

/// The counters of a process or remote-address entry agree with an
/// aggregate of the model.
pub open spec fn network_data_is(d: NetworkData, a: Agg) -> bool {
    &&& d.total_bytes_downloaded as int == a.down
    &&& d.total_bytes_uploaded as int == a.up
    &&& d.prev_total_bytes_downloaded as int == a.prev_down
    &&& d.prev_total_bytes_uploaded as int == a.prev_up
    &&& d.connection_count as int == a.count
}

/// The aggregated state of one tick: three grouped views held as
/// association vectors in first-touch order, plus the global totals.
#[derive(Debug)]
pub struct UIState {
    pub processes: Vec<(String, NetworkData)>,
    pub remote_addresses: Vec<(u32, NetworkData)>,
    pub connections: Vec<(Connection, ConnectionData)>,
    pub total_bytes_downloaded: u128,
    pub total_bytes_uploaded: u128,
}

impl Default for UIState {
    /// The state before the first tick: no entries, zero totals.
    fn default() -> (r: Self)
        ensures
            r.processes@.len() == 0,
            r.remote_addresses@.len() == 0,
            r.connections@.len() == 0,
            r.total_bytes_downloaded == 0,
            r.total_bytes_uploaded == 0,
            r.wf(),
    {
        UIState {
            processes: Vec::new(),
            remote_addresses: Vec::new(),
            connections: Vec::new(),
            total_bytes_downloaded: 0,
            total_bytes_uploaded: 0,
        }
    }
}

impl UIState {
    /// The process names of the per-process view, in entry order.
    pub open spec fn proc_names(self) -> Seq<Seq<char>> {
        self.processes@.map_values(|e: (String, NetworkData)| e.0@)
    }

    /// The remote addresses of the per-remote-address view, in entry order.
    pub open spec fn addr_ips(self) -> Seq<u32> {
        self.remote_addresses@.map_values(|e: (u32, NetworkData)| e.0)
    }

    /// The connection identities of the per-connection view, in entry order.
    pub open spec fn conn_keys(self) -> Seq<Connection> {
        self.connections@.map_values(|e: (Connection, ConnectionData)| e.0)
    }

    /// Each grouped view is a mapping: no key occurs twice.
    pub open spec fn wf(self) -> bool {
        &&& (forall|i: int, j: int|
            0 <= i < j < self.proc_names().len() ==> self.proc_names()[i] != self.proc_names()[j])
        &&& (forall|i: int, j: int|
            0 <= i < j < self.addr_ips().len() ==> self.addr_ips()[i] != self.addr_ips()[j])
        &&& (forall|i: int, j: int|
            0 <= i < j < self.conn_keys().len() ==> self.conn_keys()[i] != self.conn_keys()[j])
    }

    /// The state is exactly the fold of the given rows: the connection view
    /// lists the rows in order, the two grouped views hold one entry per
    /// distinct key in first-occurrence order with the summed counters, and
    /// the totals sum every row.
    pub open spec fn matches_rows(self, rows: Seq<Row>) -> bool {
        partial_matches(
            self.processes@,
            self.remote_addresses@,
            self.connections@,
            self.total_bytes_downloaded,
            self.total_bytes_uploaded,
            rows,
        )
    }
}

/// [`UIState::matches_rows`] over the state's components, so that it can
/// serve as the invariant while the components are still being built.
pub open spec fn partial_matches(
    processes: Seq<(String, NetworkData)>,
    remote_addresses: Seq<(u32, NetworkData)>,
    connections: Seq<(Connection, ConnectionData)>,
    total_down: u128,
    total_up: u128,
    rows: Seq<Row>,
) -> bool {
    &&& connections.len() == rows.len()
    &&& (forall|i: int|
        0 <= i < rows.len() ==> {
            &&& (#[trigger] connections[i]).0 == rows[i].conn
            &&& connections[i].1.total_bytes_downloaded as int == rows[i].down
            &&& connections[i].1.total_bytes_uploaded as int == rows[i].up
            &&& connections[i].1.prev_total_bytes_downloaded as int == rows[i].prev_down
            &&& connections[i].1.prev_total_bytes_uploaded as int == rows[i].prev_up
            &&& connections[i].1.process_name@ == rows[i].name
            &&& connections[i].1.interface_name@ == rows[i].iface
        })
    &&& processes.map_values(|e: (String, NetworkData)| e.0@) == first_names(rows)
    &&& (forall|j: int|
        0 <= j < processes.len() ==> network_data_is(
            (#[trigger] processes[j]).1,
            proc_agg(rows, processes[j].0@),
        ))
    &&& remote_addresses.map_values(|e: (u32, NetworkData)| e.0) == first_ips(rows)
    &&& (forall|j: int|
        0 <= j < remote_addresses.len() ==> network_data_is(
            (#[trigger] remote_addresses[j]).1,
            addr_agg(rows, remote_addresses[j].0),
        ))
    &&& total_down as int == all_agg(rows).down
    &&& total_up as int == all_agg(rows).up
}

/// First-match index lookup in an association vector keyed by connection.
fn index_of_conn<V>(s: &Vec<(Connection, V)>, c: Connection) -> (r: Option<usize>)
    ensures
        match r {
            Some(k) => {
                &&& k < s@.len()
                &&& s@[k as int].0 == c
                &&& forall|m: int| 0 <= m < k ==> s@[m].0 != c
            },
            None => forall|m: int| 0 <= m < s@.len() ==> s@[m].0 != c,
        },
{
    let mut k: usize = 0;
    while k < s.len()
        invariant
            k <= s@.len(),
            forall|m: int| 0 <= m < k ==> s@[m].0 != c,
        decreases s@.len() - k,
    {
        if s[k].0 == c {
            return Some(k);
        }
        k = k + 1;
    }
    None
}

/// Index lookup in the per-process view, comparing names by contents.
fn index_of_name(s: &Vec<(String, NetworkData)>, name: &String) -> (r: Option<usize>)
    ensures
        match r {
            Some(k) => k < s@.len() && s@[k as int].0@ == name@,
            None => forall|m: int| 0 <= m < s@.len() ==> s@[m].0@ != name@,
        },
{
    let mut k: usize = 0;
    while k < s.len()
        invariant
            k <= s@.len(),
            forall|m: int| 0 <= m < k ==> s@[m].0@ != name@,
        decreases s@.len() - k,
    {
        if s[k].0 == *name {
            return Some(k);
        }
        k = k + 1;
    }
    None
}

/// Index lookup in the per-remote-address view.
fn index_of_ip(s: &Vec<(u32, NetworkData)>, ip: u32) -> (r: Option<usize>)
    ensures
        match r {
            Some(k) => k < s@.len() && s@[k as int].0 == ip,
            None => forall|m: int| 0 <= m < s@.len() ==> s@[m].0 != ip,
        },
{
    let mut k: usize = 0;
    while k < s.len()
        invariant
            k <= s@.len(),
            forall|m: int| 0 <= m < k ==> s@[m].0 != ip,
        decreases s@.len() - k,
    {
        if s[k].0 == ip {
            return Some(k);
        }
        k = k + 1;
    }
    None
}

/// The smoothed estimates the previous state carries for `c`, for both
/// directions: the estimator applied to its connection entry, or zero on a
/// cold start.
fn prev_avgs(prev: &Vec<(Connection, ConnectionData)>, c: Connection) -> (r: (u128, u128))
    ensures
        r.0 as int == prev_avg_down(prev@, c),
        r.1 as int == prev_avg_up(prev@, c),
{
    match index_of_conn(prev, c) {
        Some(k) => {
            proof {
                lemma_find_conn_at(prev@, c, k as int);
            }
            let d = &prev[k].1;
            (
                calc_avg_bandwidth(d.prev_total_bytes_downloaded, d.total_bytes_downloaded),
                calc_avg_bandwidth(d.prev_total_bytes_uploaded, d.total_bytes_uploaded),
            )
        },
        None => {
            proof {
                lemma_find_conn_none(prev@, c);
            }
            (0, 0)
        },
    }
}

/// Folds one row into the per-process view: adds the raw counters and the
/// carried smoothed values into the entry for the row's process, creating
/// the entry first if the process is new this tick.  Returns `false`, and
/// leaves the view unspecified, when a counter of that entry would exceed
/// the 128-bit width.
fn fold_into_processes(
    processes: &mut Vec<(String, NetworkData)>,
    name: &String,
    r_down: u128,
    r_up: u128,
    r_prev_down: u128,
    r_prev_up: u128,
    Ghost(rows_pre): Ghost<Seq<Row>>,
    Ghost(r): Ghost<Row>,
) -> (ok: bool)
    requires
        r.name == name@,
        r.down == r_down as int,
        r.up == r_up as int,
        r.prev_down == r_prev_down as int,
        r.prev_up == r_prev_up as int,
        rows_nonneg(rows_pre),
        rows_pre.len() < u128::MAX,
        old(processes)@.map_values(|e: (String, NetworkData)| e.0@) == first_names(rows_pre),
        forall|j: int|
            0 <= j < old(processes)@.len() ==> network_data_is(
                (#[trigger] old(processes)@[j]).1,
                proc_agg(rows_pre, old(processes)@[j].0@),
            ),
    ensures
        ok ==> final(processes)@.map_values(|e: (String, NetworkData)| e.0@) == first_names(
            rows_pre.push(r),
        ),
        ok ==> forall|j: int|
            0 <= j < final(processes)@.len() ==> network_data_is(
                (#[trigger] final(processes)@[j]).1,
                proc_agg(rows_pre.push(r), final(processes)@[j].0@),
            ),
        !ok ==> proc_agg(rows_pre.push(r), r.name).down > u128::MAX || proc_agg(
            rows_pre.push(r),
            r.name,
        ).up > u128::MAX || proc_agg(rows_pre.push(r), r.name).prev_down > u128::MAX || proc_agg(
            rows_pre.push(r),
            r.name,
        ).prev_up > u128::MAX,
{
    let ghost rows_post = rows_pre.push(r);
    proof {
        lemma_first_names(rows_pre);
        lemma_push_unfold(rows_pre, r, r.name, 0);
    }
    match index_of_name(processes, name) {
        Some(j) => {
            proof {
                assert(processes@.map_values(|e: (String, NetworkData)| e.0@)[j as int]
                    == processes@[j as int].0@);
                assert(first_names(rows_pre).contains(r.name));
                assert(proc_agg(rows_post, r.name) == agg_add(proc_agg(rows_pre, r.name), r));
                assert(network_data_is(processes@[j as int].1, proc_agg(rows_pre, r.name)));
            }
            let entry_down: u128 = processes[j].1.total_bytes_downloaded;
            let entry_up: u128 = processes[j].1.total_bytes_uploaded;
            let entry_prev_down: u128 = processes[j].1.prev_total_bytes_downloaded;
            let entry_prev_up: u128 = processes[j].1.prev_total_bytes_uploaded;
            let entry_count: u128 = processes[j].1.connection_count;
            let nd_down = match entry_down.checked_add(r_down) {
                Some(v) => v,
                None => {
                    return false;
                },
            };
            let nd_up = match entry_up.checked_add(r_up) {
                Some(v) => v,
                None => {
                    return false;
                },
            };
            let nd_prev_down = match entry_prev_down.checked_add(r_prev_down) {
                Some(v) => v,
                None => {
                    return false;
                },
            };
            let nd_prev_up = match entry_prev_up.checked_add(r_prev_up) {
                Some(v) => v,
                None => {
                    return false;
                },
            };
            proof {
                lemma_proc_agg_le_all(rows_pre, r.name);
                lemma_all_agg_count(rows_pre);
                assert(entry_count < u128::MAX);
            }
            let nd = NetworkData {
                total_bytes_downloaded: nd_down,
                total_bytes_uploaded: nd_up,
                prev_total_bytes_downloaded: nd_prev_down,
                prev_total_bytes_uploaded: nd_prev_up,
                connection_count: entry_count + 1,
            };
            let ghost before = processes@;
            processes[j].1 = nd;
            proof {
                assert(processes@ == before.update(j as int, (before[j as int].0, nd)));
                assert(processes@.map_values(|e: (String, NetworkData)| e.0@) =~= first_names(
                    rows_post,
                ));
                assert forall|j2: int| 0 <= j2 < processes@.len() implies network_data_is(
                    (#[trigger] processes@[j2]).1,
                    proc_agg(rows_post, processes@[j2].0@),
                ) by {
                    assert(before.map_values(|e: (String, NetworkData)| e.0@)[j2]
                        == before[j2].0@);
                    if j2 == j as int {
                        assert(processes@[j2].1 == nd);
                    } else {
                        assert(before[j2].0@ == first_names(rows_pre)[j2]);
                        assert(before[j as int].0@ == first_names(rows_pre)[j as int]);
                        assert(before[j2].0@ != r.name);
                        lemma_push_unfold(rows_pre, r, before[j2].0@, 0);
                        assert(network_data_is(before[j2].1, proc_agg(rows_pre, before[j2].0@)));
                    }
                }
            }
            true
        },
        None => {
            proof {
                if has_name(rows_pre, r.name) {
                    let t = choose|t: int|
                        0 <= t < first_names(rows_pre).len() && first_names(rows_pre)[t] == r.name;
                    assert(processes@.map_values(|e: (String, NetworkData)| e.0@)[t]
                        == processes@[t].0@);
                    assert(false);
                }
                lemma_proc_agg_absent(rows_pre, r.name);
            }
            let nd = NetworkData {
                total_bytes_downloaded: r_down,
                total_bytes_uploaded: r_up,
                prev_total_bytes_downloaded: r_prev_down,
                prev_total_bytes_uploaded: r_prev_up,
                connection_count: 1,
            };
            let ghost before = processes@;
            processes.push((name.clone(), nd));
            proof {
                assert(processes@.map_values(|e: (String, NetworkData)| e.0@) =~= first_names(
                    rows_post,
                ));
                assert forall|j2: int| 0 <= j2 < processes@.len() implies network_data_is(
                    (#[trigger] processes@[j2]).1,
                    proc_agg(rows_post, processes@[j2].0@),
                ) by {
                    if j2 < before.len() {
                        assert(processes@[j2] == before[j2]);
                        assert(before.map_values(|e: (String, NetworkData)| e.0@)[j2]
                            == before[j2].0@);
                        assert(before[j2].0@ == first_names(rows_pre)[j2]);
                        if before[j2].0@ == r.name {
                            assert(first_names(rows_pre).contains(r.name));
                            assert(false);
                        }
                        lemma_push_unfold(rows_pre, r, before[j2].0@, 0);
                        assert(network_data_is(before[j2].1, proc_agg(rows_pre, before[j2].0@)));
                    } else {
                        assert(processes@[j2].1 == nd);
                        assert(processes@[j2].0@ == r.name);
                        assert(proc_agg(rows_post, r.name) == agg_add(agg_zero(), r));
                    }
                }
            }
            true
        },
    }
}

/// Remote-address counterpart of [`fold_into_processes`], keyed by the
/// row's remote peer address.
fn fold_into_remotes(
    remote_addresses: &mut Vec<(u32, NetworkData)>,
    ip: u32,
    r_down: u128,
    r_up: u128,
    r_prev_down: u128,
    r_prev_up: u128,
    Ghost(rows_pre): Ghost<Seq<Row>>,
    Ghost(r): Ghost<Row>,
) -> (ok: bool)
    requires
        r.conn.remote_socket.ip == ip,
        r.down == r_down as int,
        r.up == r_up as int,
        r.prev_down == r_prev_down as int,
        r.prev_up == r_prev_up as int,
        rows_nonneg(rows_pre),
        rows_pre.len() < u128::MAX,
        old(remote_addresses)@.map_values(|e: (u32, NetworkData)| e.0) == first_ips(rows_pre),
        forall|j: int|
            0 <= j < old(remote_addresses)@.len() ==> network_data_is(
                (#[trigger] old(remote_addresses)@[j]).1,
                addr_agg(rows_pre, old(remote_addresses)@[j].0),
            ),
    ensures
        ok ==> final(remote_addresses)@.map_values(|e: (u32, NetworkData)| e.0) == first_ips(
            rows_pre.push(r),
        ),
        ok ==> forall|j: int|
            0 <= j < final(remote_addresses)@.len() ==> network_data_is(
                (#[trigger] final(remote_addresses)@[j]).1,
                addr_agg(rows_pre.push(r), final(remote_addresses)@[j].0),
            ),
        !ok ==> addr_agg(rows_pre.push(r), ip).down > u128::MAX || addr_agg(
            rows_pre.push(r),
            ip,
        ).up > u128::MAX || addr_agg(rows_pre.push(r), ip).prev_down > u128::MAX || addr_agg(
            rows_pre.push(r),
            ip,
        ).prev_up > u128::MAX,
{
    let ghost rows_post = rows_pre.push(r);
    proof {
        lemma_first_ips(rows_pre);
        lemma_push_unfold(rows_pre, r, Seq::empty(), ip);
    }
    match index_of_ip(remote_addresses, ip) {
        Some(j) => {
            proof {
                assert(remote_addresses@.map_values(|e: (u32, NetworkData)| e.0)[j as int]
                    == remote_addresses@[j as int].0);
                assert(first_ips(rows_pre).contains(ip));
                assert(addr_agg(rows_post, ip) == agg_add(addr_agg(rows_pre, ip), r));
                assert(network_data_is(remote_addresses@[j as int].1, addr_agg(rows_pre, ip)));
            }
            let entry_down: u128 = remote_addresses[j].1.total_bytes_downloaded;
            let entry_up: u128 = remote_addresses[j].1.total_bytes_uploaded;
            let entry_prev_down: u128 = remote_addresses[j].1.prev_total_bytes_downloaded;
            let entry_prev_up: u128 = remote_addresses[j].1.prev_total_bytes_uploaded;
            let entry_count: u128 = remote_addresses[j].1.connection_count;
            let nd_down = match entry_down.checked_add(r_down) {
                Some(v) => v,
                None => {
                    return false;
                },
            };
            let nd_up = match entry_up.checked_add(r_up) {
                Some(v) => v,
                None => {
                    return false;
                },
            };
            let nd_prev_down = match entry_prev_down.checked_add(r_prev_down) {
                Some(v) => v,
                None => {
                    return false;
                },
            };
            let nd_prev_up = match entry_prev_up.checked_add(r_prev_up) {
                Some(v) => v,
                None => {
                    return false;
                },
            };
            proof {
                lemma_addr_agg_le_all(rows_pre, ip);
                lemma_all_agg_count(rows_pre);
                assert(entry_count < u128::MAX);
            }
            let nd = NetworkData {
                total_bytes_downloaded: nd_down,
                total_bytes_uploaded: nd_up,
                prev_total_bytes_downloaded: nd_prev_down,
                prev_total_bytes_uploaded: nd_prev_up,
                connection_count: entry_count + 1,
            };
            let ghost before = remote_addresses@;
            remote_addresses[j].1 = nd;
            proof {
                assert(remote_addresses@ == before.update(j as int, (before[j as int].0, nd)));
                assert(remote_addresses@.map_values(|e: (u32, NetworkData)| e.0) =~= first_ips(
                    rows_post,
                ));
                assert forall|j2: int| 0 <= j2 < remote_addresses@.len() implies network_data_is(
                    (#[trigger] remote_addresses@[j2]).1,
                    addr_agg(rows_post, remote_addresses@[j2].0),
                ) by {
                    assert(before.map_values(|e: (u32, NetworkData)| e.0)[j2] == before[j2].0);
                    if j2 == j as int {
                        assert(remote_addresses@[j2].1 == nd);
                    } else {
                        assert(before[j2].0 == first_ips(rows_pre)[j2]);
                        assert(before[j as int].0 == first_ips(rows_pre)[j as int]);
                        assert(before[j2].0 != ip);
                        lemma_push_unfold(rows_pre, r, Seq::empty(), before[j2].0);
                        assert(network_data_is(before[j2].1, addr_agg(rows_pre, before[j2].0)));
                    }
                }
            }
            true
        },
        None => {
            proof {
                if has_ip(rows_pre, ip) {
                    let t = choose|t: int|
                        0 <= t < first_ips(rows_pre).len() && first_ips(rows_pre)[t] == ip;
                    assert(remote_addresses@.map_values(|e: (u32, NetworkData)| e.0)[t]
                        == remote_addresses@[t].0);
                    assert(false);
                }
                lemma_addr_agg_absent(rows_pre, ip);
            }
            let nd = NetworkData {
                total_bytes_downloaded: r_down,
                total_bytes_uploaded: r_up,
                prev_total_bytes_downloaded: r_prev_down,
                prev_total_bytes_uploaded: r_prev_up,
                connection_count: 1,
            };
            let ghost before = remote_addresses@;
            remote_addresses.push((ip, nd));
            proof {
                assert(remote_addresses@.map_values(|e: (u32, NetworkData)| e.0) =~= first_ips(
                    rows_post,
                ));
                assert forall|j2: int| 0 <= j2 < remote_addresses@.len() implies network_data_is(
                    (#[trigger] remote_addresses@[j2]).1,
                    addr_agg(rows_post, remote_addresses@[j2].0),
                ) by {
                    if j2 < before.len() {
                        assert(remote_addresses@[j2] == before[j2]);
                        assert(before.map_values(|e: (u32, NetworkData)| e.0)[j2] == before[j2].0);
                        assert(before[j2].0 == first_ips(rows_pre)[j2]);
                        if before[j2].0 == ip {
                            assert(first_ips(rows_pre).contains(ip));
                            assert(false);
                        }
                        lemma_push_unfold(rows_pre, r, Seq::empty(), before[j2].0);
                        assert(network_data_is(before[j2].1, addr_agg(rows_pre, before[j2].0)));
                    } else {
                        assert(remote_addresses@[j2].1 == nd);
                        assert(remote_addresses@[j2].0 == ip);
                        assert(addr_agg(rows_post, ip) == agg_add(agg_zero(), r));
                    }
                }
            }
            true
        },
    }
}

impl UIState {
    /// Builds the aggregated state of one tick, reporting overflow.
    ///
    /// Iterates the process mapping; every connection with a matching entry
    /// in the utilization snapshot is folded, exactly once, into the
    /// per-process, per-remote-address and per-connection views and into
    /// the global totals, carrying the previous state's smoothed averages
    /// into the `prev` counters of all three views.  Returns `None`, and
    /// builds nothing, exactly when some counter of the tick would exceed
    /// the 128-bit width.
    pub fn build(
        connections_to_procs: Vec<(Connection, String)>,
        utilization: Utilization,
        old_state: &UIState,
    ) -> (r: Option<UIState>)
        requires
            conn_keys_unique(connections_to_procs@),
            utilization.wf(),
        ensures
            (r is Some) <==> tick_fits(
                rows_of(connections_to_procs@, utilization.connections@, old_state.connections@),
            ),
            r matches Some(state) ==> state.wf() && state.matches_rows(
                rows_of(connections_to_procs@, utilization.connections@, old_state.connections@),
            ),
    {
        let ghost procs0 = connections_to_procs@;
        let ghost util0 = utilization.connections@;
        let ghost prev0 = old_state.connections@;
        let ghost rows_full = rows_of(procs0, util0, prev0);

        let mut processes: Vec<(String, NetworkData)> = Vec::new();
        let mut remote_addresses: Vec<(u32, NetworkData)> = Vec::new();
        let mut connections: Vec<(Connection, ConnectionData)> = Vec::new();
        let mut total_bytes_downloaded: u128 = 0;
        let mut total_bytes_uploaded: u128 = 0;

        let n: usize = connections_to_procs.len();
        let mut idx: usize = 0;
        proof {
            let rows0 = rows_upto(procs0, util0, prev0, 0);
            assert(rows0 =~= Seq::<Row>::empty());
            assert(processes@.map_values(|e: (String, NetworkData)| e.0@) =~= first_names(rows0));
            assert(remote_addresses@.map_values(|e: (u32, NetworkData)| e.0) =~= first_ips(rows0));
        }
        while idx < n
            invariant
                idx <= n,
                n == procs0.len(),
                connections_to_procs@ == procs0,
                utilization.connections@ == util0,
                old_state.connections@ == prev0,
                conn_keys_unique(procs0),
                rows_full == rows_of(procs0, util0, prev0),
                partial_matches(
                    processes@,
                    remote_addresses@,
                    connections@,
                    total_bytes_downloaded,
                    total_bytes_uploaded,
                    rows_upto(procs0, util0, prev0, idx as int),
                ),
            decreases n - idx,
        {
            let ghost rows_pre = rows_upto(procs0, util0, prev0, idx as int);
            let ghost rows_post = rows_upto(procs0, util0, prev0, idx as int + 1);
            let connection: Connection = connections_to_procs[idx].0;
            match index_of_conn(&utilization.connections, connection) {
                None => {
                    proof {
                        lemma_find_conn_none(util0, connection);
                        assert(rows_post == rows_pre);
                    }
                },
                Some(ui) => {
                    proof {
                        lemma_find_conn_at(util0, connection, ui as int);
                    }
                    let info_down: u128 = utilization.connections[ui].1.total_bytes_downloaded;
                    let info_up: u128 = utilization.connections[ui].1.total_bytes_uploaded;
                    let prev_pair = prev_avgs(&old_state.connections, connection);
                    let prev_down: u128 = prev_pair.0;
                    let prev_up: u128 = prev_pair.1;
                    let ghost r = row_of(procs0[idx as int], util0, prev0);
                    proof {
                        assert(r.conn == connection);
                        assert(r.name == procs0[idx as int].1@);
                        assert(r.iface == util0[ui as int].1.interface_name@);
                        assert(r.down == info_down as int);
                        assert(r.up == info_up as int);
                        assert(r.prev_down == prev_down as int);
                        assert(r.prev_up == prev_up as int);
                        assert(row_nonneg(r));
                        assert(rows_post == rows_pre.push(r));
                        lemma_push_unfold(rows_pre, r, r.name, r.conn.remote_socket.ip);
                        lemma_rows_upto_nonneg(procs0, util0, prev0, idx as int);
                        lemma_rows_upto_len(procs0, util0, prev0, idx as int);
                    }
                    // Global totals, reporting overflow of the counter width.
                    match total_bytes_downloaded.checked_add(info_down) {
                        Some(v) => {
                            total_bytes_downloaded = v;
                        },
                        None => {
                            proof {
                                lemma_all_agg_upto_le(
                                    procs0,
                                    util0,
                                    prev0,
                                    idx as int + 1,
                                    procs0.len() as int,
                                );
                                assert(all_agg(rows_full).down > u128::MAX);
                            }
                            return None;
                        },
                    }
                    match total_bytes_uploaded.checked_add(info_up) {
                        Some(v) => {
                            total_bytes_uploaded = v;
                        },
                        None => {
                            proof {
                                lemma_all_agg_upto_le(
                                    procs0,
                                    util0,
                                    prev0,
                                    idx as int + 1,
                                    procs0.len() as int,
                                );
                                assert(all_agg(rows_full).up > u128::MAX);
                            }
                            return None;
                        },
                    }
                    // Per-process view.
                    let folded_proc = fold_into_processes(
                        &mut processes,
                        &connections_to_procs[idx].1,
                        info_down,
                        info_up,
                        prev_down,
                        prev_up,
                        Ghost(rows_pre),
                        Ghost(r),
                    );
                    if !folded_proc {
                        proof {
                            lemma_proc_agg_upto_le(
                                procs0,
                                util0,
                                prev0,
                                r.name,
                                idx as int + 1,
                                procs0.len() as int,
                            );
                            lemma_rows_upto_nonneg(procs0, util0, prev0, procs0.len() as int);
                            lemma_proc_agg_le_all(rows_full, r.name);
                            lemma_rows_upto_prefix(
                                procs0,
                                util0,
                                prev0,
                                idx as int + 1,
                                procs0.len() as int,
                            );
                            assert(rows_full[rows_pre.len() as int] == r);
                            assert(has_name(rows_full, r.name));
                            assert(!tick_fits(rows_full));
                        }
                        return None;
                    }
                    // Per-remote-address view.
                    let folded_addr = fold_into_remotes(
                        &mut remote_addresses,
                        connection.remote_socket.ip,
                        info_down,
                        info_up,
                        prev_down,
                        prev_up,
                        Ghost(rows_pre),
                        Ghost(r),
                    );
                    if !folded_addr {
                        proof {
                            lemma_addr_agg_upto_le(
                                procs0,
                                util0,
                                prev0,
                                r.conn.remote_socket.ip,
                                idx as int + 1,
                                procs0.len() as int,
                            );
                            lemma_rows_upto_nonneg(procs0, util0, prev0, procs0.len() as int);
                            lemma_addr_agg_le_all(rows_full, r.conn.remote_socket.ip);
                            lemma_rows_upto_prefix(
                                procs0,
                                util0,
                                prev0,
                                idx as int + 1,
                                procs0.len() as int,
                            );
                            assert(rows_full[rows_pre.len() as int] == r);
                            assert(has_ip(rows_full, r.conn.remote_socket.ip));
                            assert(!tick_fits(rows_full));
                        }
                        return None;
                    }
                    // Per-connection view.
                    let conn_data = ConnectionData {
                        total_bytes_downloaded: info_down,
                        total_bytes_uploaded: info_up,
                        prev_total_bytes_downloaded: prev_down,
                        prev_total_bytes_uploaded: prev_up,
                        process_name: connections_to_procs[idx].1.clone(),
                        interface_name: utilization.connections[ui].1.interface_name.clone(),
                    };
                    let ghost conns_before = connections@;
                    connections.push((connection, conn_data));
                    proof {
                        assert forall|i2: int| 0 <= i2 < rows_post.len() implies {
                            &&& (#[trigger] connections@[i2]).0 == rows_post[i2].conn
                            &&& connections@[i2].1.total_bytes_downloaded as int
                                == rows_post[i2].down
                            &&& connections@[i2].1.total_bytes_uploaded as int == rows_post[i2].up
                            &&& connections@[i2].1.prev_total_bytes_downloaded as int
                                == rows_post[i2].prev_down
                            &&& connections@[i2].1.prev_total_bytes_uploaded as int
                                == rows_post[i2].prev_up
                            &&& connections@[i2].1.process_name@ == rows_post[i2].name
                            &&& connections@[i2].1.interface_name@ == rows_post[i2].iface
                        } by {
                            if i2 < conns_before.len() {
                                assert(connections@[i2] == conns_before[i2]);
                                assert(rows_post[i2] == rows_pre[i2]);
                            }
                        }
                    }
                },
            }
            idx = idx + 1;
        }
        proof {
            assert(rows_upto(procs0, util0, prev0, idx as int) == rows_full);
            lemma_first_names(rows_full);
            lemma_first_ips(rows_full);
            lemma_rows_upto_conns(procs0, util0, prev0, procs0.len() as int);
            // The grouped views fit the counter width: every present key has
            // an entry whose counters are 128-bit values.
            assert forall|name: Seq<char>|
                has_name(rows_full, name) implies #[trigger] proc_agg(rows_full, name).prev_down
                <= u128::MAX && proc_agg(rows_full, name).prev_up <= u128::MAX by {
                assert(first_names(rows_full).contains(name));
                let t = choose|t: int|
                    0 <= t < first_names(rows_full).len() && first_names(rows_full)[t] == name;
                assert(processes@.map_values(|e: (String, NetworkData)| e.0@)[t]
                    == processes@[t].0@);
                assert(network_data_is(processes@[t].1, proc_agg(rows_full, name)));
            }
            assert forall|ip: u32|
                has_ip(rows_full, ip) implies #[trigger] addr_agg(rows_full, ip).prev_down
                <= u128::MAX && addr_agg(rows_full, ip).prev_up <= u128::MAX by {
                assert(first_ips(rows_full).contains(ip));
                let t = choose|t: int|
                    0 <= t < first_ips(rows_full).len() && first_ips(rows_full)[t] == ip;
                assert(remote_addresses@.map_values(|e: (u32, NetworkData)| e.0)[t]
                    == remote_addresses@[t].0);
                assert(network_data_is(remote_addresses@[t].1, addr_agg(rows_full, ip)));
            }
            assert(tick_fits(rows_full));
        }
        let state = UIState {
            processes,
            remote_addresses,
            connections,
            total_bytes_downloaded,
            total_bytes_uploaded,
        };
        proof {
            // Well-formedness: the key sequences are duplicate-free.
            assert forall|i: int, j: int|
                0 <= i < j < state.conn_keys().len() implies state.conn_keys()[i]
                != state.conn_keys()[j] by {
                assert(state.conn_keys()[i] == state.connections@[i].0);
                assert(state.conn_keys()[j] == state.connections@[j].0);
                assert(state.connections@[i].0 == rows_full[i].conn);
                assert(state.connections@[j].0 == rows_full[j].conn);
            }
            assert(state.proc_names() == first_names(rows_full));
            assert(state.addr_ips() == first_ips(rows_full));
        }
        Some(state)
    }

    /// Builds the aggregated state of one tick.
    ///
    /// Same as [`UIState::build`], for a tick whose counters are known to
    /// fit the 128-bit width — at realistic per-tick byte volumes the width
    /// is practically unbounded.
    pub fn new(
        connections_to_procs: Vec<(Connection, String)>,
        network_utilization: Utilization,
        old_state: &UIState,
    ) -> (r: UIState)
        requires
            conn_keys_unique(connections_to_procs@),
            network_utilization.wf(),
            tick_fits(
                rows_of(
                    connections_to_procs@,
                    network_utilization.connections@,
                    old_state.connections@,
                ),
            ),
        ensures
            r.wf(),
            r.matches_rows(
                rows_of(
                    connections_to_procs@,
                    network_utilization.connections@,
                    old_state.connections@,
                ),
            ),
    {
        match Self::build(connections_to_procs, network_utilization, old_state) {
            Some(state) => state,
            None => {
                proof {
                    assert(false);
                }
                vstd::pervasive::unreached()
            },
        }
    }
}

} // verus!
