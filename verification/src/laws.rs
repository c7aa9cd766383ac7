//! Properties of the aggregation, proved once for every input the
//! aggregator accepts.  Each proof function below speaks about a state that
//! was built for a tick — that is, one satisfying
//! [`UIState::matches_rows`](crate::ui_state::UIState::matches_rows) for
//! the tick's rows, as [`UIState::build`](crate::ui_state::UIState::build)
//! and [`UIState::new`](crate::ui_state::UIState::new) ensure.

use vstd::prelude::*;

use crate::model::{
    addr_agg, all_agg, avg_spec, conn_keys_unique, find_conn, has_conn, has_ip, has_name,
    lemma_first_ips, lemma_first_names, lemma_remove_unmatched, lemma_rows_upto_conns,
    lemma_rows_upto_in_util, lemma_rows_upto_prev, proc_agg, rows_of, sum_conn_down,
    sum_conn_prev_down, sum_conn_prev_down_ip, sum_conn_prev_up, sum_conn_prev_up_ip, sum_conn_up,
    Row,
};
use crate::net::{Connection, ConnectionInfo};
use crate::ui_state::{ConnectionData, UIState};

verus! {

/// The summed carried history of the connection entries owned by one
/// process equals the per-process fold of the rows, given the pointwise
/// correspondence between entries and rows.
proof fn lemma_conn_sums_proc(
    conns: Seq<(Connection, ConnectionData)>,
    rows: Seq<Row>,
    name: Seq<char>,
)
    requires
        conns.len() == rows.len(),
        forall|i: int|
            0 <= i < rows.len() ==> (#[trigger] conns[i]).1.process_name@ == rows[i].name
                && conns[i].1.prev_total_bytes_downloaded as int == rows[i].prev_down
                && conns[i].1.prev_total_bytes_uploaded as int == rows[i].prev_up,
    ensures
        sum_conn_prev_down(conns, name) == proc_agg(rows, name).prev_down,
        sum_conn_prev_up(conns, name) == proc_agg(rows, name).prev_up,
    decreases conns.len(),
{
    if conns.len() > 0 {
        let cdl = conns.drop_last();
        let rdl = rows.drop_last();
        assert forall|i: int|
            0 <= i < rdl.len() implies (#[trigger] cdl[i]).1.process_name@ == rdl[i].name
            && cdl[i].1.prev_total_bytes_downloaded as int == rdl[i].prev_down
            && cdl[i].1.prev_total_bytes_uploaded as int == rdl[i].prev_up by {
            assert(cdl[i] == conns[i]);
            assert(rdl[i] == rows[i]);
        }
        lemma_conn_sums_proc(cdl, rdl, name);
        assert(conns.last() == conns[conns.len() - 1]);
        assert(rows.last() == rows[rows.len() - 1]);
    }
}

/// Remote-address counterpart of [`lemma_conn_sums_proc`].
proof fn lemma_conn_sums_addr(conns: Seq<(Connection, ConnectionData)>, rows: Seq<Row>, ip: u32)
    requires
        conns.len() == rows.len(),
        forall|i: int|
            0 <= i < rows.len() ==> (#[trigger] conns[i]).0 == rows[i].conn
                && conns[i].1.prev_total_bytes_downloaded as int == rows[i].prev_down
                && conns[i].1.prev_total_bytes_uploaded as int == rows[i].prev_up,
    ensures
        sum_conn_prev_down_ip(conns, ip) == addr_agg(rows, ip).prev_down,
        sum_conn_prev_up_ip(conns, ip) == addr_agg(rows, ip).prev_up,
    decreases conns.len(),
{
    if conns.len() > 0 {
        let cdl = conns.drop_last();
        let rdl = rows.drop_last();
        assert forall|i: int|
            0 <= i < rdl.len() implies (#[trigger] cdl[i]).0 == rdl[i].conn
            && cdl[i].1.prev_total_bytes_downloaded as int == rdl[i].prev_down
            && cdl[i].1.prev_total_bytes_uploaded as int == rdl[i].prev_up by {
            assert(cdl[i] == conns[i]);
            assert(rdl[i] == rows[i]);
        }
        lemma_conn_sums_addr(cdl, rdl, ip);
        assert(conns.last() == conns[conns.len() - 1]);
        assert(rows.last() == rows[rows.len() - 1]);
    }
}

/// The summed raw counters of all connection entries equal the global fold
/// of the rows, given the pointwise correspondence.
proof fn lemma_conn_sums_all(conns: Seq<(Connection, ConnectionData)>, rows: Seq<Row>)
    requires
        conns.len() == rows.len(),
        forall|i: int|
            0 <= i < rows.len() ==> (#[trigger] conns[i]).1.total_bytes_downloaded as int
                == rows[i].down && conns[i].1.total_bytes_uploaded as int == rows[i].up,
    ensures
        sum_conn_down(conns) == all_agg(rows).down,
        sum_conn_up(conns) == all_agg(rows).up,
    decreases conns.len(),
{
    if conns.len() > 0 {
        let cdl = conns.drop_last();
        let rdl = rows.drop_last();
        assert forall|i: int|
            0 <= i < rdl.len() implies (#[trigger] cdl[i]).1.total_bytes_downloaded as int
            == rdl[i].down && cdl[i].1.total_bytes_uploaded as int == rdl[i].up by {
            assert(cdl[i] == conns[i]);
            assert(rdl[i] == rows[i]);
        }
        lemma_conn_sums_all(cdl, rdl);
        assert(conns.last() == conns[conns.len() - 1]);
        assert(rows.last() == rows[rows.len() - 1]);
    }
}

/// Cold start: a connection absent from the previous state carries no
/// history, so its smoothed average in both directions equals the raw
/// current-tick counter exactly.
pub proof fn lemma_cold_start(
    state: UIState,
    procs: Seq<(Connection, String)>,
    util: Seq<(Connection, ConnectionInfo)>,
    prev: Seq<(Connection, ConnectionData)>,
    i: int,
)
    requires
        state.matches_rows(rows_of(procs, util, prev)),
        0 <= i < state.connections@.len(),
        !has_conn(prev, state.connections@[i].0),
    ensures
        state.connections@[i].1.prev_total_bytes_downloaded == 0,
        state.connections@[i].1.prev_total_bytes_uploaded == 0,
        avg_spec(
            state.connections@[i].1.prev_total_bytes_downloaded as int,
            state.connections@[i].1.total_bytes_downloaded as int,
        ) == state.connections@[i].1.total_bytes_downloaded as int,
        avg_spec(
            state.connections@[i].1.prev_total_bytes_uploaded as int,
            state.connections@[i].1.total_bytes_uploaded as int,
        ) == state.connections@[i].1.total_bytes_uploaded as int,
{
    let rows = rows_of(procs, util, prev);
    lemma_rows_upto_prev(procs, util, prev, procs.len() as int);
    assert(state.connections@[i].0 == rows[i].conn);
    assert(rows[i].prev_down == crate::model::prev_avg_down(prev, rows[i].conn));
}

/// Decay: a connection present in the previous state carries that entry's
/// smoothed average `p` into its `prev` counters; whenever `p` is nonzero,
/// its new smoothed average is the mean of `p` and the current raw counter
/// `c`, rounded to the nearest integer with halves upward: `(p + c + 1) / 2`.
/// (When `p` is zero the estimator treats the connection as a cold start
/// instead, and the average equals `c`.)
pub proof fn lemma_decay(
    state: UIState,
    procs: Seq<(Connection, String)>,
    util: Seq<(Connection, ConnectionInfo)>,
    prev: Seq<(Connection, ConnectionData)>,
    i: int,
)
    requires
        state.matches_rows(rows_of(procs, util, prev)),
        0 <= i < state.connections@.len(),
        has_conn(prev, state.connections@[i].0),
    ensures
        state.connections@[i].1.prev_total_bytes_downloaded as int == avg_spec(
            find_conn(prev, state.connections@[i].0).unwrap().prev_total_bytes_downloaded as int,
            find_conn(prev, state.connections@[i].0).unwrap().total_bytes_downloaded as int,
        ),
        state.connections@[i].1.prev_total_bytes_uploaded as int == avg_spec(
            find_conn(prev, state.connections@[i].0).unwrap().prev_total_bytes_uploaded as int,
            find_conn(prev, state.connections@[i].0).unwrap().total_bytes_uploaded as int,
        ),
        state.connections@[i].1.prev_total_bytes_downloaded != 0 ==> avg_spec(
            state.connections@[i].1.prev_total_bytes_downloaded as int,
            state.connections@[i].1.total_bytes_downloaded as int,
        ) == (state.connections@[i].1.prev_total_bytes_downloaded as int
            + state.connections@[i].1.total_bytes_downloaded as int + 1) / 2,
        state.connections@[i].1.prev_total_bytes_uploaded != 0 ==> avg_spec(
            state.connections@[i].1.prev_total_bytes_uploaded as int,
            state.connections@[i].1.total_bytes_uploaded as int,
        ) == (state.connections@[i].1.prev_total_bytes_uploaded as int
            + state.connections@[i].1.total_bytes_uploaded as int + 1) / 2,
{
    let rows = rows_of(procs, util, prev);
    lemma_rows_upto_prev(procs, util, prev, procs.len() as int);
    assert(state.connections@[i].0 == rows[i].conn);
    assert(rows[i].prev_down == crate::model::prev_avg_down(prev, rows[i].conn));
    assert(rows[i].prev_up == crate::model::prev_avg_up(prev, rows[i].conn));
}

/// Additivity: the carried history of a process entry is the sum of the
/// carried histories of its constituent connection entries, in both
/// directions — a group's smoothed estimate is the sum of its members'
/// individually smoothed estimates.
pub proof fn lemma_additivity_process(
    state: UIState,
    procs: Seq<(Connection, String)>,
    util: Seq<(Connection, ConnectionInfo)>,
    prev: Seq<(Connection, ConnectionData)>,
    j: int,
)
    requires
        state.matches_rows(rows_of(procs, util, prev)),
        0 <= j < state.processes@.len(),
    ensures
        state.processes@[j].1.prev_total_bytes_downloaded as int == sum_conn_prev_down(
            state.connections@,
            state.processes@[j].0@,
        ),
        state.processes@[j].1.prev_total_bytes_uploaded as int == sum_conn_prev_up(
            state.connections@,
            state.processes@[j].0@,
        ),
{
    let rows = rows_of(procs, util, prev);
    lemma_conn_sums_proc(state.connections@, rows, state.processes@[j].0@);
}

/// Remote-address counterpart of [`lemma_additivity_process`].
pub proof fn lemma_additivity_remote(
    state: UIState,
    procs: Seq<(Connection, String)>,
    util: Seq<(Connection, ConnectionInfo)>,
    prev: Seq<(Connection, ConnectionData)>,
    j: int,
)
    requires
        state.matches_rows(rows_of(procs, util, prev)),
        0 <= j < state.remote_addresses@.len(),
    ensures
        state.remote_addresses@[j].1.prev_total_bytes_downloaded as int == sum_conn_prev_down_ip(
            state.connections@,
            state.remote_addresses@[j].0,
        ),
        state.remote_addresses@[j].1.prev_total_bytes_uploaded as int == sum_conn_prev_up_ip(
            state.connections@,
            state.remote_addresses@[j].0,
        ),
{
    let rows = rows_of(procs, util, prev);
    lemma_conn_sums_addr(state.connections@, rows, state.remote_addresses@[j].0);
}

/// Global totals: the state's two totals are the sums of the raw counters
/// over all its connection entries.
pub proof fn lemma_global_totals(
    state: UIState,
    procs: Seq<(Connection, String)>,
    util: Seq<(Connection, ConnectionInfo)>,
    prev: Seq<(Connection, ConnectionData)>,
)
    requires
        state.matches_rows(rows_of(procs, util, prev)),
    ensures
        state.total_bytes_downloaded as int == sum_conn_down(state.connections@),
        state.total_bytes_uploaded as int == sum_conn_up(state.connections@),
{
    let rows = rows_of(procs, util, prev);
    lemma_conn_sums_all(state.connections@, rows);
}

/// An entry of the process mapping whose connection is absent from the
/// utilization snapshot contributes nothing: dropping it leaves the rows of
/// the tick — and with them every part of the resulting state — unchanged.
pub proof fn lemma_unmatched_ignored(
    procs: Seq<(Connection, String)>,
    util: Seq<(Connection, ConnectionInfo)>,
    prev: Seq<(Connection, ConnectionData)>,
    i: int,
)
    requires
        0 <= i < procs.len(),
        !has_conn(util, procs[i].0),
    ensures
        rows_of(procs.remove(i), util, prev) == rows_of(procs, util, prev),
{
    lemma_remove_unmatched(procs, util, prev, i, procs.len() as int);
}

/// A connection absent from the utilization snapshot gets no entry in the
/// connection view.
pub proof fn lemma_unmatched_no_entry(
    state: UIState,
    procs: Seq<(Connection, String)>,
    util: Seq<(Connection, ConnectionInfo)>,
    prev: Seq<(Connection, ConnectionData)>,
    c: Connection,
)
    requires
        state.matches_rows(rows_of(procs, util, prev)),
        !has_conn(util, c),
    ensures
        !state.conn_keys().contains(c),
{
    let rows = rows_of(procs, util, prev);
    lemma_rows_upto_in_util(procs, util, prev, procs.len() as int);
    if state.conn_keys().contains(c) {
        let t = choose|t: int| 0 <= t < state.conn_keys().len() && state.conn_keys()[t] == c;
        assert(state.conn_keys()[t] == state.connections@[t].0);
        assert(state.connections@[t].0 == rows[t].conn);
    }
}

/// No stale carry-over: every key of the new state comes from a connection
/// folded this tick.  An entity known only to the previous state — a
/// process, remote address or connection with no matching connection this
/// tick — has no entry in the new state.
pub proof fn lemma_no_stale_carry_over(
    state: UIState,
    procs: Seq<(Connection, String)>,
    util: Seq<(Connection, ConnectionInfo)>,
    prev: Seq<(Connection, ConnectionData)>,
)
    requires
        state.matches_rows(rows_of(procs, util, prev)),
        conn_keys_unique(procs),
    ensures
        forall|name: Seq<char>|
            state.proc_names().contains(name) ==> has_name(rows_of(procs, util, prev), name),
        forall|ip: u32| state.addr_ips().contains(ip) ==> has_ip(rows_of(procs, util, prev), ip),
        forall|c: Connection|
            state.conn_keys().contains(c) ==> has_conn(util, c) && (exists|k: int|
                0 <= k < procs.len() && procs[k].0 == c),
{
    let rows = rows_of(procs, util, prev);
    lemma_first_names(rows);
    lemma_first_ips(rows);
    lemma_rows_upto_in_util(procs, util, prev, procs.len() as int);
    lemma_rows_upto_conns(procs, util, prev, procs.len() as int);
    assert forall|c: Connection| state.conn_keys().contains(c) implies has_conn(util, c)
        && (exists|k: int| 0 <= k < procs.len() && procs[k].0 == c) by {
        let t = choose|t: int| 0 <= t < state.conn_keys().len() && state.conn_keys()[t] == c;
        assert(state.conn_keys()[t] == state.connections@[t].0);
        assert(state.connections@[t].0 == rows[t].conn);
        assert(has_conn(util, rows[t].conn));
        let k = choose|k: int| 0 <= k < procs.len() && rows[t].conn == procs[k].0;
        assert(0 <= k < procs.len() && procs[k].0 == c);
    }
}

} // verus!
