//! The mathematical model of one aggregation tick.
//!
//! A tick is modelled as a sequence of *rows*, one per connection that occurs
//! in the process mapping and has a matching entry in the utilization
//! snapshot, in processing order.  Every field of the aggregated state is a
//! fold over that row sequence: per-process and per-remote-address aggregates
//! sum the rows that share a key, the connection view lists the rows
//! themselves, and the global totals sum everything.

use vstd::prelude::*;

use crate::net::{Connection, ConnectionInfo};
use crate::ui_state::ConnectionData;

verus! {

/// The exponential-decay estimate with decay factor one half: a previous
/// smoothed value of zero means a cold start (the raw value is taken as is);
/// otherwise the estimate is the mean of the previous smoothed value and the
/// current raw value, rounded to the nearest integer (halves upward).
pub open spec fn avg_spec(prev: int, curr: int) -> int {
    if prev == 0 {
        curr
    } else {
        (prev + curr + 1) / 2
    }
}

/// First-match lookup in an association sequence keyed by connection.
pub open spec fn find_conn<V>(s: Seq<(Connection, V)>, c: Connection) -> Option<V>
    decreases s.len(),
{
    if s.len() == 0 {
        None
    } else if s[0].0 == c {
        Some(s[0].1)
    } else {
        find_conn(s.drop_first(), c)
    }
}

pub open spec fn has_conn<V>(s: Seq<(Connection, V)>, c: Connection) -> bool {
    find_conn(s, c) is Some
}

/// The association sequence is a mapping: no key occurs twice.
pub open spec fn conn_keys_unique<V>(s: Seq<(Connection, V)>) -> bool {
    forall|i: int, j: int| 0 <= i < j < s.len() ==> s[i].0 != s[j].0
}

pub proof fn lemma_find_conn_at<V>(s: Seq<(Connection, V)>, c: Connection, k: int)
    requires
        0 <= k < s.len(),
        s[k].0 == c,
        forall|m: int| 0 <= m < k ==> s[m].0 != c,
    ensures
        find_conn(s, c) == Some(s[k].1),
    decreases k,
{
    if k > 0 {
        assert forall|m: int| 0 <= m < k - 1 implies s.drop_first()[m].0 != c by {
            assert(s.drop_first()[m] == s[m + 1]);
        }
        lemma_find_conn_at(s.drop_first(), c, k - 1);
        assert(s.drop_first()[k - 1] == s[k]);
    }
}

pub proof fn lemma_find_conn_none<V>(s: Seq<(Connection, V)>, c: Connection)
    requires
        forall|m: int| 0 <= m < s.len() ==> s[m].0 != c,
    ensures
        find_conn(s, c) == None::<V>,
    decreases s.len(),
{
    if s.len() > 0 {
        assert forall|m: int| 0 <= m < s.drop_first().len() implies s.drop_first()[m].0 != c by {
            assert(s.drop_first()[m] == s[m + 1]);
        }
        lemma_find_conn_none(s.drop_first(), c);
    }
}

/// One processed connection: its identity, owning process name, interface,
/// raw counters for the tick, and the smoothed values carried over from the
/// previous state (zero on a cold start).
pub ghost struct Row {
    pub conn: Connection,
    pub name: Seq<char>,
    pub iface: Seq<char>,
    pub down: int,
    pub up: int,
    pub prev_down: int,
    pub prev_up: int,
}

/// The smoothed download estimate the previous state carries for `c`:
/// the estimator applied to that state's connection entry, or zero if the
/// connection is new.
pub open spec fn prev_avg_down(prev: Seq<(Connection, ConnectionData)>, c: Connection) -> int {
    match find_conn(prev, c) {
        Some(d) => avg_spec(
            d.prev_total_bytes_downloaded as int,
            d.total_bytes_downloaded as int,
        ),
        None => 0,
    }
}

/// Upload counterpart of [`prev_avg_down`].
pub open spec fn prev_avg_up(prev: Seq<(Connection, ConnectionData)>, c: Connection) -> int {
    match find_conn(prev, c) {
        Some(d) => avg_spec(
            d.prev_total_bytes_uploaded as int,
            d.total_bytes_uploaded as int,
        ),
        None => 0,
    }
}

/// The row produced for one entry of the process mapping, assuming the
/// utilization snapshot holds a matching entry.
pub open spec fn row_of(
    e: (Connection, String),
    util: Seq<(Connection, ConnectionInfo)>,
    prev: Seq<(Connection, ConnectionData)>,
) -> Row {
    let info = find_conn(util, e.0).unwrap();
    Row {
        conn: e.0,
        name: e.1@,
        iface: info.interface_name@,
        down: info.total_bytes_downloaded as int,
        up: info.total_bytes_uploaded as int,
        prev_down: prev_avg_down(prev, e.0),
        prev_up: prev_avg_up(prev, e.0),
    }
}

/// The rows produced by the first `n` entries of the process mapping, in
/// processing order; entries without a matching utilization entry produce
/// no row.
pub open spec fn rows_upto(
    procs: Seq<(Connection, String)>,
    util: Seq<(Connection, ConnectionInfo)>,
    prev: Seq<(Connection, ConnectionData)>,
    n: int,
) -> Seq<Row>
    decreases n,
{
    if n <= 0 {
        Seq::empty()
    } else {
        let r = rows_upto(procs, util, prev, n - 1);
        if has_conn(util, procs[n - 1].0) {
            r.push(row_of(procs[n - 1], util, prev))
        } else {
            r
        }
    }
}

/// All rows of one tick.
pub open spec fn rows_of(
    procs: Seq<(Connection, String)>,
    util: Seq<(Connection, ConnectionInfo)>,
    prev: Seq<(Connection, ConnectionData)>,
) -> Seq<Row> {
    rows_upto(procs, util, prev, procs.len() as int)
}

/// Bandwidth counters of one aggregate, over unbounded integers.
pub ghost struct Agg {
    pub down: int,
    pub up: int,
    pub prev_down: int,
    pub prev_up: int,
    pub count: int,
}

pub open spec fn agg_zero() -> Agg {
    Agg { down: 0, up: 0, prev_down: 0, prev_up: 0, count: 0 }
}

pub open spec fn agg_add(a: Agg, r: Row) -> Agg {
    Agg {
        down: a.down + r.down,
        up: a.up + r.up,
        prev_down: a.prev_down + r.prev_down,
        prev_up: a.prev_up + r.prev_up,
        count: a.count + 1,
    }
}

/// The aggregate of all rows owned by process `name`.
pub open spec fn proc_agg(rows: Seq<Row>, name: Seq<char>) -> Agg
    decreases rows.len(),
{
    if rows.len() == 0 {
        agg_zero()
    } else {
        let a = proc_agg(rows.drop_last(), name);
        if rows.last().name == name {
            agg_add(a, rows.last())
        } else {
            a
        }
    }
}

/// The aggregate of all rows whose remote peer address is `ip`.
pub open spec fn addr_agg(rows: Seq<Row>, ip: u32) -> Agg
    decreases rows.len(),
{
    if rows.len() == 0 {
        agg_zero()
    } else {
        let a = addr_agg(rows.drop_last(), ip);
        if rows.last().conn.remote_socket.ip == ip {
            agg_add(a, rows.last())
        } else {
            a
        }
    }
}

/// The aggregate of every row: the source of the global totals.
pub open spec fn all_agg(rows: Seq<Row>) -> Agg
    decreases rows.len(),
{
    if rows.len() == 0 {
        agg_zero()
    } else {
        agg_add(all_agg(rows.drop_last()), rows.last())
    }
}

pub open spec fn has_name(rows: Seq<Row>, name: Seq<char>) -> bool {
    exists|i: int| 0 <= i < rows.len() && rows[i].name == name
}

pub open spec fn has_ip(rows: Seq<Row>, ip: u32) -> bool {
    exists|i: int| 0 <= i < rows.len() && rows[i].conn.remote_socket.ip == ip
}

/// The distinct process names of the rows, in first-occurrence order:
/// the key sequence of the per-process view.
pub open spec fn first_names(rows: Seq<Row>) -> Seq<Seq<char>>
    decreases rows.len(),
{
    if rows.len() == 0 {
        Seq::empty()
    } else {
        let p = first_names(rows.drop_last());
        if p.contains(rows.last().name) {
            p
        } else {
            p.push(rows.last().name)
        }
    }
}

/// The distinct remote addresses of the rows, in first-occurrence order:
/// the key sequence of the per-remote-address view.
pub open spec fn first_ips(rows: Seq<Row>) -> Seq<u32>
    decreases rows.len(),
{
    if rows.len() == 0 {
        Seq::empty()
    } else {
        let p = first_ips(rows.drop_last());
        if p.contains(rows.last().conn.remote_socket.ip) {
            p
        } else {
            p.push(rows.last().conn.remote_socket.ip)
        }
    }
}

/// Every counter the tick produces fits the chosen 128-bit width: the
/// global raw totals, and the summed smoothed history of every process and
/// every remote address.  Exceeding the width is reported by the
/// aggregator, never wrapped.  (Per-group raw sums are bounded by the
/// global totals, and per-connection counters are single captured values,
/// so neither needs a clause of its own.)
pub open spec fn tick_fits(rows: Seq<Row>) -> bool {
    &&& all_agg(rows).down <= u128::MAX
    &&& all_agg(rows).up <= u128::MAX
    &&& (forall|name: Seq<char>|
        #![trigger proc_agg(rows, name)]
        has_name(rows, name) ==> proc_agg(rows, name).prev_down <= u128::MAX && proc_agg(
            rows,
            name,
        ).prev_up <= u128::MAX)
    &&& (forall|ip: u32|
        #![trigger addr_agg(rows, ip)]
        has_ip(rows, ip) ==> addr_agg(rows, ip).prev_down <= u128::MAX && addr_agg(
            rows,
            ip,
        ).prev_up <= u128::MAX)
}

pub open spec fn row_nonneg(r: Row) -> bool {
    &&& r.down >= 0
    &&& r.up >= 0
    &&& r.prev_down >= 0
    &&& r.prev_up >= 0
}

pub open spec fn rows_nonneg(rows: Seq<Row>) -> bool {
    forall|i: int| 0 <= i < rows.len() ==> row_nonneg(#[trigger] rows[i])
}

/// Appending a row extends each fold by exactly that row's contribution.
pub proof fn lemma_push_unfold(rows: Seq<Row>, r: Row, name: Seq<char>, ip: u32)
    ensures
        all_agg(rows.push(r)) == agg_add(all_agg(rows), r),
        proc_agg(rows.push(r), name) == (if r.name == name {
            agg_add(proc_agg(rows, name), r)
        } else {
            proc_agg(rows, name)
        }),
        addr_agg(rows.push(r), ip) == (if r.conn.remote_socket.ip == ip {
            agg_add(addr_agg(rows, ip), r)
        } else {
            addr_agg(rows, ip)
        }),
        first_names(rows.push(r)) == (if first_names(rows).contains(r.name) {
            first_names(rows)
        } else {
            first_names(rows).push(r.name)
        }),
        first_ips(rows.push(r)) == (if first_ips(rows).contains(r.conn.remote_socket.ip) {
            first_ips(rows)
        } else {
            first_ips(rows).push(r.conn.remote_socket.ip)
        }),
{
    assert(rows.push(r).drop_last() =~= rows);
    assert(rows.push(r).last() == r);
}

/// The distinct-key sequences are duplicate-free and hold exactly the keys
/// that occur among the rows.
pub proof fn lemma_first_names(rows: Seq<Row>)
    ensures
        forall|i: int, j: int|
            0 <= i < j < first_names(rows).len() ==> first_names(rows)[i] != first_names(rows)[j],
        forall|name: Seq<char>| #[trigger] first_names(rows).contains(name) <==> has_name(rows, name),
    decreases rows.len(),
{
    if rows.len() > 0 {
        let dl = rows.drop_last();
        let p = first_names(dl);
        let nm0 = rows.last().name;
        lemma_first_names(dl);
        lemma_push_unfold(dl, rows.last(), nm0, 0);
        assert(dl.push(rows.last()) =~= rows);
        assert forall|name: Seq<char>|
            #[trigger] first_names(rows).contains(name) <==> has_name(rows, name) by {
            if first_names(rows).contains(name) {
                if p.contains(name) {
                    let i = choose|i: int| 0 <= i < dl.len() && dl[i].name == name;
                    assert(rows[i].name == name);
                    assert(has_name(rows, name));
                } else {
                    let t = choose|t: int|
                        0 <= t < first_names(rows).len() && first_names(rows)[t] == name;
                    assert(!p.contains(nm0) && t == p.len() && name == nm0);
                    assert(rows[rows.len() - 1].name == name);
                    assert(has_name(rows, name));
                }
            }
            if has_name(rows, name) {
                let i = choose|i: int| 0 <= i < rows.len() && rows[i].name == name;
                if i < rows.len() - 1 {
                    assert(dl[i].name == name);
                    assert(has_name(dl, name));
                    assert(p.contains(name));
                    if !p.contains(nm0) {
                        let t = choose|t: int| 0 <= t < p.len() && p[t] == name;
                        assert(first_names(rows)[t] == name);
                    }
                    assert(first_names(rows).contains(name));
                } else {
                    assert(name == nm0);
                    if p.contains(nm0) {
                        assert(first_names(rows).contains(name));
                    } else {
                        assert(first_names(rows)[p.len() as int] == nm0);
                        assert(first_names(rows).contains(name));
                    }
                }
            }
        }
        if !p.contains(nm0) {
            assert forall|i: int, j: int|
                0 <= i < j < first_names(rows).len() implies first_names(rows)[i]
                != first_names(rows)[j] by {
                if j == p.len() {
                    assert(first_names(rows)[j] == nm0);
                    assert(first_names(rows)[i] == p[i]);
                    if p[i] == nm0 {
                        assert(p.contains(nm0));
                    }
                }
            }
        }
    }
}

/// Remote-address counterpart of [`lemma_first_names`].
pub proof fn lemma_first_ips(rows: Seq<Row>)
    ensures
        forall|i: int, j: int|
            0 <= i < j < first_ips(rows).len() ==> first_ips(rows)[i] != first_ips(rows)[j],
        forall|ip: u32| #[trigger] first_ips(rows).contains(ip) <==> has_ip(rows, ip),
    decreases rows.len(),
{
    if rows.len() > 0 {
        let dl = rows.drop_last();
        let p = first_ips(dl);
        let ip0 = rows.last().conn.remote_socket.ip;
        lemma_first_ips(dl);
        lemma_push_unfold(dl, rows.last(), Seq::empty(), ip0);
        assert(dl.push(rows.last()) =~= rows);
        assert forall|ip: u32| #[trigger] first_ips(rows).contains(ip) <==> has_ip(rows, ip) by {
            if first_ips(rows).contains(ip) {
                if p.contains(ip) {
                    let i = choose|i: int| 0 <= i < dl.len() && dl[i].conn.remote_socket.ip == ip;
                    assert(rows[i].conn.remote_socket.ip == ip);
                    assert(has_ip(rows, ip));
                } else {
                    let t = choose|t: int| 0 <= t < first_ips(rows).len() && first_ips(rows)[t] == ip;
                    assert(!p.contains(ip0) && t == p.len() && ip == ip0);
                    assert(rows[rows.len() - 1].conn.remote_socket.ip == ip);
                    assert(has_ip(rows, ip));
                }
            }
            if has_ip(rows, ip) {
                let i = choose|i: int| 0 <= i < rows.len() && rows[i].conn.remote_socket.ip == ip;
                if i < rows.len() - 1 {
                    assert(dl[i].conn.remote_socket.ip == ip);
                    assert(has_ip(dl, ip));
                    assert(p.contains(ip));
                    if !p.contains(ip0) {
                        let t = choose|t: int| 0 <= t < p.len() && p[t] == ip;
                        assert(first_ips(rows)[t] == ip);
                    }
                    assert(first_ips(rows).contains(ip));
                } else {
                    assert(ip == ip0);
                    if p.contains(ip0) {
                        assert(first_ips(rows).contains(ip));
                    } else {
                        assert(first_ips(rows)[p.len() as int] == ip0);
                        assert(first_ips(rows).contains(ip));
                    }
                }
            }
        }
        if !p.contains(ip0) {
            assert forall|i: int, j: int|
                0 <= i < j < first_ips(rows).len() implies first_ips(rows)[i]
                != first_ips(rows)[j] by {
                if j == p.len() {
                    assert(first_ips(rows)[j] == ip0);
                    assert(first_ips(rows)[i] == p[i]);
                    if p[i] == ip0 {
                        assert(p.contains(ip0));
                    }
                }
            }
        }
    }
}

/// A process that owns no row this tick aggregates to zero.
pub proof fn lemma_proc_agg_absent(rows: Seq<Row>, name: Seq<char>)
    requires
        !has_name(rows, name),
    ensures
        proc_agg(rows, name) == agg_zero(),
    decreases rows.len(),
{
    if rows.len() > 0 {
        let dl = rows.drop_last();
        if rows.last().name == name {
            assert(rows[rows.len() - 1].name == name);
            assert(has_name(rows, name));
        }
        if has_name(dl, name) {
            let i = choose|i: int| 0 <= i < dl.len() && dl[i].name == name;
            assert(rows[i].name == name);
            assert(has_name(rows, name));
        }
        lemma_proc_agg_absent(dl, name);
    }
}

/// A remote address that no row reaches this tick aggregates to zero.
pub proof fn lemma_addr_agg_absent(rows: Seq<Row>, ip: u32)
    requires
        !has_ip(rows, ip),
    ensures
        addr_agg(rows, ip) == agg_zero(),
    decreases rows.len(),
{
    if rows.len() > 0 {
        let dl = rows.drop_last();
        if rows.last().conn.remote_socket.ip == ip {
            assert(rows[rows.len() - 1].conn.remote_socket.ip == ip);
            assert(has_ip(rows, ip));
        }
        if has_ip(dl, ip) {
            let i = choose|i: int| 0 <= i < dl.len() && dl[i].conn.remote_socket.ip == ip;
            assert(rows[i].conn.remote_socket.ip == ip);
            assert(has_ip(rows, ip));
        }
        lemma_addr_agg_absent(dl, ip);
    }
}

/// Every per-process aggregate is bounded by the aggregate of all rows.
pub proof fn lemma_proc_agg_le_all(rows: Seq<Row>, name: Seq<char>)
    requires
        rows_nonneg(rows),
    ensures
        0 <= proc_agg(rows, name).down <= all_agg(rows).down,
        0 <= proc_agg(rows, name).up <= all_agg(rows).up,
        0 <= proc_agg(rows, name).prev_down <= all_agg(rows).prev_down,
        0 <= proc_agg(rows, name).prev_up <= all_agg(rows).prev_up,
        0 <= proc_agg(rows, name).count <= all_agg(rows).count,
    decreases rows.len(),
{
    if rows.len() > 0 {
        let dl = rows.drop_last();
        assert forall|i: int| 0 <= i < dl.len() implies row_nonneg(#[trigger] dl[i]) by {
            assert(dl[i] == rows[i]);
        }
        lemma_proc_agg_le_all(dl, name);
        assert(row_nonneg(rows[rows.len() - 1]));
    }
}

/// Every per-remote-address aggregate is bounded by the aggregate of all rows.
pub proof fn lemma_addr_agg_le_all(rows: Seq<Row>, ip: u32)
    requires
        rows_nonneg(rows),
    ensures
        0 <= addr_agg(rows, ip).down <= all_agg(rows).down,
        0 <= addr_agg(rows, ip).up <= all_agg(rows).up,
        0 <= addr_agg(rows, ip).prev_down <= all_agg(rows).prev_down,
        0 <= addr_agg(rows, ip).prev_up <= all_agg(rows).prev_up,
        0 <= addr_agg(rows, ip).count <= all_agg(rows).count,
    decreases rows.len(),
{
    if rows.len() > 0 {
        let dl = rows.drop_last();
        assert forall|i: int| 0 <= i < dl.len() implies row_nonneg(#[trigger] dl[i]) by {
            assert(dl[i] == rows[i]);
        }
        lemma_addr_agg_le_all(dl, ip);
        assert(row_nonneg(rows[rows.len() - 1]));
    }
}

/// The global connection count is the number of rows.
pub proof fn lemma_all_agg_count(rows: Seq<Row>)
    ensures
        all_agg(rows).count == rows.len(),
    decreases rows.len(),
{
    if rows.len() > 0 {
        lemma_all_agg_count(rows.drop_last());
    }
}

/// Each entry of the process mapping produces at most one row.
pub proof fn lemma_rows_upto_len(
    procs: Seq<(Connection, String)>,
    util: Seq<(Connection, ConnectionInfo)>,
    prev: Seq<(Connection, ConnectionData)>,
    n: int,
)
    requires
        n >= 0,
    ensures
        rows_upto(procs, util, prev, n).len() <= n,
    decreases n,
{
    if n > 0 {
        lemma_rows_upto_len(procs, util, prev, n - 1);
    }
}

/// The rows a tick produces carry non-negative counters.
pub proof fn lemma_rows_upto_nonneg(
    procs: Seq<(Connection, String)>,
    util: Seq<(Connection, ConnectionInfo)>,
    prev: Seq<(Connection, ConnectionData)>,
    n: int,
)
    ensures
        rows_nonneg(rows_upto(procs, util, prev, n)),
    decreases n,
{
    if n > 0 {
        lemma_rows_upto_nonneg(procs, util, prev, n - 1);
        let base = rows_upto(procs, util, prev, n - 1);
        if has_conn(util, procs[n - 1].0) {
            let r = row_of(procs[n - 1], util, prev);
            assert(row_nonneg(r));
            assert forall|i: int|
                0 <= i < rows_upto(procs, util, prev, n).len() implies row_nonneg(
                #[trigger] rows_upto(procs, util, prev, n)[i],
            ) by {
                if i < base.len() {
                    assert(rows_upto(procs, util, prev, n)[i] == base[i]);
                } else {
                    assert(rows_upto(procs, util, prev, n)[i] == r);
                }
            }
        }
    }
}

/// Growing the processed prefix never shrinks the global totals.
pub proof fn lemma_all_agg_upto_le(
    procs: Seq<(Connection, String)>,
    util: Seq<(Connection, ConnectionInfo)>,
    prev: Seq<(Connection, ConnectionData)>,
    n1: int,
    n2: int,
)
    requires
        0 <= n1 <= n2,
    ensures
        all_agg(rows_upto(procs, util, prev, n1)).down <= all_agg(
            rows_upto(procs, util, prev, n2),
        ).down,
        all_agg(rows_upto(procs, util, prev, n1)).up <= all_agg(rows_upto(procs, util, prev, n2)).up,
        all_agg(rows_upto(procs, util, prev, n1)).prev_down <= all_agg(
            rows_upto(procs, util, prev, n2),
        ).prev_down,
        all_agg(rows_upto(procs, util, prev, n1)).prev_up <= all_agg(
            rows_upto(procs, util, prev, n2),
        ).prev_up,
    decreases n2 - n1,
{
    if n1 < n2 {
        lemma_all_agg_upto_le(procs, util, prev, n1, n2 - 1);
        let base = rows_upto(procs, util, prev, n2 - 1);
        if has_conn(util, procs[n2 - 1].0) {
            let r = row_of(procs[n2 - 1], util, prev);
            assert(row_nonneg(r));
            lemma_push_unfold(base, r, r.name, r.conn.remote_socket.ip);
        }
    }
}

/// A shorter processed prefix yields a prefix of the rows.
pub proof fn lemma_rows_upto_prefix(
    procs: Seq<(Connection, String)>,
    util: Seq<(Connection, ConnectionInfo)>,
    prev: Seq<(Connection, ConnectionData)>,
    n1: int,
    n2: int,
)
    requires
        0 <= n1 <= n2,
    ensures
        rows_upto(procs, util, prev, n1).len() <= rows_upto(procs, util, prev, n2).len(),
        forall|j: int|
            0 <= j < rows_upto(procs, util, prev, n1).len() ==> rows_upto(procs, util, prev, n2)[j]
                == rows_upto(procs, util, prev, n1)[j],
    decreases n2 - n1,
{
    if n1 < n2 {
        lemma_rows_upto_prefix(procs, util, prev, n1, n2 - 1);
        let base = rows_upto(procs, util, prev, n2 - 1);
        let cur = rows_upto(procs, util, prev, n2);
        if has_conn(util, procs[n2 - 1].0) {
            assert(forall|j: int| 0 <= j < base.len() ==> cur[j] == base[j]);
        }
    }
}

/// Growing the processed prefix never shrinks a per-process aggregate.
pub proof fn lemma_proc_agg_upto_le(
    procs: Seq<(Connection, String)>,
    util: Seq<(Connection, ConnectionInfo)>,
    prev: Seq<(Connection, ConnectionData)>,
    name: Seq<char>,
    n1: int,
    n2: int,
)
    requires
        0 <= n1 <= n2,
    ensures
        proc_agg(rows_upto(procs, util, prev, n1), name).down <= proc_agg(
            rows_upto(procs, util, prev, n2),
            name,
        ).down,
        proc_agg(rows_upto(procs, util, prev, n1), name).up <= proc_agg(
            rows_upto(procs, util, prev, n2),
            name,
        ).up,
        proc_agg(rows_upto(procs, util, prev, n1), name).prev_down <= proc_agg(
            rows_upto(procs, util, prev, n2),
            name,
        ).prev_down,
        proc_agg(rows_upto(procs, util, prev, n1), name).prev_up <= proc_agg(
            rows_upto(procs, util, prev, n2),
            name,
        ).prev_up,
    decreases n2 - n1,
{
    if n1 < n2 {
        lemma_proc_agg_upto_le(procs, util, prev, name, n1, n2 - 1);
        let base = rows_upto(procs, util, prev, n2 - 1);
        if has_conn(util, procs[n2 - 1].0) {
            let r = row_of(procs[n2 - 1], util, prev);
            assert(row_nonneg(r));
            lemma_push_unfold(base, r, name, 0);
        }
    }
}

/// Growing the processed prefix never shrinks a per-remote-address
/// aggregate.
pub proof fn lemma_addr_agg_upto_le(
    procs: Seq<(Connection, String)>,
    util: Seq<(Connection, ConnectionInfo)>,
    prev: Seq<(Connection, ConnectionData)>,
    ip: u32,
    n1: int,
    n2: int,
)
    requires
        0 <= n1 <= n2,
    ensures
        addr_agg(rows_upto(procs, util, prev, n1), ip).down <= addr_agg(
            rows_upto(procs, util, prev, n2),
            ip,
        ).down,
        addr_agg(rows_upto(procs, util, prev, n1), ip).up <= addr_agg(
            rows_upto(procs, util, prev, n2),
            ip,
        ).up,
        addr_agg(rows_upto(procs, util, prev, n1), ip).prev_down <= addr_agg(
            rows_upto(procs, util, prev, n2),
            ip,
        ).prev_down,
        addr_agg(rows_upto(procs, util, prev, n1), ip).prev_up <= addr_agg(
            rows_upto(procs, util, prev, n2),
            ip,
        ).prev_up,
    decreases n2 - n1,
{
    if n1 < n2 {
        lemma_addr_agg_upto_le(procs, util, prev, ip, n1, n2 - 1);
        let base = rows_upto(procs, util, prev, n2 - 1);
        if has_conn(util, procs[n2 - 1].0) {
            let r = row_of(procs[n2 - 1], util, prev);
            assert(row_nonneg(r));
            lemma_push_unfold(base, r, Seq::empty(), ip);
        }
    }
}

/// Each row's carried history is exactly what the previous state holds for
/// its connection.
pub proof fn lemma_rows_upto_prev(
    procs: Seq<(Connection, String)>,
    util: Seq<(Connection, ConnectionInfo)>,
    prev: Seq<(Connection, ConnectionData)>,
    n: int,
)
    ensures
        forall|j: int|
            0 <= j < rows_upto(procs, util, prev, n).len() ==> (#[trigger] rows_upto(
                procs,
                util,
                prev,
                n,
            )[j]).prev_down == prev_avg_down(prev, rows_upto(procs, util, prev, n)[j].conn)
                && rows_upto(procs, util, prev, n)[j].prev_up == prev_avg_up(
                prev,
                rows_upto(procs, util, prev, n)[j].conn,
            ),
    decreases n,
{
    if n > 0 {
        lemma_rows_upto_prev(procs, util, prev, n - 1);
        let base = rows_upto(procs, util, prev, n - 1);
        let cur = rows_upto(procs, util, prev, n);
        if has_conn(util, procs[n - 1].0) {
            assert(forall|j: int| 0 <= j < base.len() ==> cur[j] == base[j]);
        }
    }
}

/// Each row's raw counters and interface are exactly what the utilization
/// snapshot holds for its connection, which in particular is present there.
pub proof fn lemma_rows_upto_in_util(
    procs: Seq<(Connection, String)>,
    util: Seq<(Connection, ConnectionInfo)>,
    prev: Seq<(Connection, ConnectionData)>,
    n: int,
)
    ensures
        forall|j: int|
            0 <= j < rows_upto(procs, util, prev, n).len() ==> has_conn(
                util,
                (#[trigger] rows_upto(procs, util, prev, n)[j]).conn,
            ) && rows_upto(procs, util, prev, n)[j].down == find_conn(
                util,
                rows_upto(procs, util, prev, n)[j].conn,
            ).unwrap().total_bytes_downloaded as int && rows_upto(procs, util, prev, n)[j].up
                == find_conn(util, rows_upto(procs, util, prev, n)[j].conn).unwrap()
                .total_bytes_uploaded as int,
    decreases n,
{
    if n > 0 {
        lemma_rows_upto_in_util(procs, util, prev, n - 1);
        let base = rows_upto(procs, util, prev, n - 1);
        let cur = rows_upto(procs, util, prev, n);
        if has_conn(util, procs[n - 1].0) {
            assert(forall|j: int| 0 <= j < base.len() ==> cur[j] == base[j]);
        }
    }
}

/// Dropping a process-mapping entry that has no matching utilization entry
/// leaves the rows of the tick — and with them every part of the resulting
/// state — unchanged.
pub proof fn lemma_remove_unmatched(
    procs: Seq<(Connection, String)>,
    util: Seq<(Connection, ConnectionInfo)>,
    prev: Seq<(Connection, ConnectionData)>,
    i: int,
    j: int,
)
    requires
        0 <= i < procs.len(),
        !has_conn(util, procs[i].0),
        0 <= j <= procs.len(),
    ensures
        j <= i ==> rows_upto(procs.remove(i), util, prev, j) == rows_upto(procs, util, prev, j),
        j > i ==> rows_upto(procs.remove(i), util, prev, j - 1) == rows_upto(
            procs,
            util,
            prev,
            j,
        ),
    decreases j,
{
    if j > 0 {
        lemma_remove_unmatched(procs, util, prev, i, j - 1);
        if j <= i {
            assert(procs.remove(i)[j - 1] == procs[j - 1]);
        } else if j == i + 1 {
        } else {
            assert(procs.remove(i)[j - 2] == procs[j - 1]);
        }
    }
}

/// The summed carried download history of the connection entries owned by
/// process `name`.
pub open spec fn sum_conn_prev_down(
    conns: Seq<(Connection, ConnectionData)>,
    name: Seq<char>,
) -> int
    decreases conns.len(),
{
    if conns.len() == 0 {
        0
    } else {
        sum_conn_prev_down(conns.drop_last(), name) + if conns.last().1.process_name@ == name {
            conns.last().1.prev_total_bytes_downloaded as int
        } else {
            0
        }
    }
}

/// Upload counterpart of [`sum_conn_prev_down`].
pub open spec fn sum_conn_prev_up(conns: Seq<(Connection, ConnectionData)>, name: Seq<char>) -> int
    decreases conns.len(),
{
    if conns.len() == 0 {
        0
    } else {
        sum_conn_prev_up(conns.drop_last(), name) + if conns.last().1.process_name@ == name {
            conns.last().1.prev_total_bytes_uploaded as int
        } else {
            0
        }
    }
}

/// The summed carried download history of the connection entries whose
/// remote peer address is `ip`.
pub open spec fn sum_conn_prev_down_ip(conns: Seq<(Connection, ConnectionData)>, ip: u32) -> int
    decreases conns.len(),
{
    if conns.len() == 0 {
        0
    } else {
        sum_conn_prev_down_ip(conns.drop_last(), ip) + if conns.last().0.remote_socket.ip == ip {
            conns.last().1.prev_total_bytes_downloaded as int
        } else {
            0
        }
    }
}

/// Upload counterpart of [`sum_conn_prev_down_ip`].
pub open spec fn sum_conn_prev_up_ip(conns: Seq<(Connection, ConnectionData)>, ip: u32) -> int
    decreases conns.len(),
{
    if conns.len() == 0 {
        0
    } else {
        sum_conn_prev_up_ip(conns.drop_last(), ip) + if conns.last().0.remote_socket.ip == ip {
            conns.last().1.prev_total_bytes_uploaded as int
        } else {
            0
        }
    }
}

/// The summed raw download counters of all connection entries.
pub open spec fn sum_conn_down(conns: Seq<(Connection, ConnectionData)>) -> int
    decreases conns.len(),
{
    if conns.len() == 0 {
        0
    } else {
        sum_conn_down(conns.drop_last()) + conns.last().1.total_bytes_downloaded as int
    }
}

/// The summed raw upload counters of all connection entries.
pub open spec fn sum_conn_up(conns: Seq<(Connection, ConnectionData)>) -> int
    decreases conns.len(),
{
    if conns.len() == 0 {
        0
    } else {
        sum_conn_up(conns.drop_last()) + conns.last().1.total_bytes_uploaded as int
    }
}

/// Rows carry pairwise-distinct connections, each drawn from the processed
/// prefix of the process mapping.
pub proof fn lemma_rows_upto_conns(
    procs: Seq<(Connection, String)>,
    util: Seq<(Connection, ConnectionInfo)>,
    prev: Seq<(Connection, ConnectionData)>,
    n: int,
)
    requires
        conn_keys_unique(procs),
        0 <= n <= procs.len(),
    ensures
        forall|j: int|
            0 <= j < rows_upto(procs, util, prev, n).len() ==> exists|k: int|
                0 <= k < n && (#[trigger] rows_upto(procs, util, prev, n)[j]).conn == procs[k].0,
        forall|j1: int, j2: int|
            0 <= j1 < j2 < rows_upto(procs, util, prev, n).len() ==> rows_upto(
                procs,
                util,
                prev,
                n,
            )[j1].conn != rows_upto(procs, util, prev, n)[j2].conn,
    decreases n,
{
    if n > 0 {
        lemma_rows_upto_conns(procs, util, prev, n - 1);
        let base = rows_upto(procs, util, prev, n - 1);
        let cur = rows_upto(procs, util, prev, n);
        if has_conn(util, procs[n - 1].0) {
            let r = row_of(procs[n - 1], util, prev);
            assert forall|j: int| 0 <= j < cur.len() implies exists|k: int|
                0 <= k < n && (#[trigger] cur[j]).conn == procs[k].0 by {
                if j < base.len() {
                    assert(cur[j] == base[j]);
                    let k = choose|k: int| 0 <= k < n - 1 && base[j].conn == procs[k].0;
                    assert(0 <= k < n && cur[j].conn == procs[k].0);
                } else {
                    assert(cur[j] == r);
                    assert(0 <= n - 1 < n && cur[j].conn == procs[n - 1].0);
                }
            }
            assert forall|j1: int, j2: int|
                0 <= j1 < j2 < cur.len() implies cur[j1].conn != cur[j2].conn by {
                if j2 < base.len() {
                    assert(cur[j1] == base[j1] && cur[j2] == base[j2]);
                } else {
                    assert(cur[j1] == base[j1] && cur[j2] == r);
                    let k = choose|k: int| 0 <= k < n - 1 && base[j1].conn == procs[k].0;
                    assert(procs[k].0 != procs[n - 1].0);
                }
            }
        } else {
            assert(cur =~= base);
            assert forall|j: int| 0 <= j < cur.len() implies exists|k: int|
                0 <= k < n && (#[trigger] cur[j]).conn == procs[k].0 by {
                let k = choose|k: int| 0 <= k < n - 1 && base[j].conn == procs[k].0;
                assert(0 <= k < n && cur[j].conn == procs[k].0);
            }
        }
    }
}

} // verus!
