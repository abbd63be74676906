//! The result aggregator: a complete batch of engine records becomes a
//! deterministic, sorted, human-readable report.
//!
//! Records are put in the total content order of [`crate::records`], then
//! records sharing a key (kind, address and, for port records, port) are
//! collapsed to the one that sorts first. Because the order is total, the
//! report depends only on which records are in the batch, never on the order
//! the engine finished its probes in.

use vstd::prelude::*;

use crate::addr::ip_chars;
use crate::records::RecordView;
use crate::records::ResultRecord;
use crate::records::rec_views;
use crate::records::record_le;
use crate::strings::dec_chars;
use crate::strings::seq_views;
use crate::addr::ip_to_string;
use crate::records::record_le_exec;
use crate::records::lemma_record_le_total_ordering;
use crate::records::PingState;
use crate::records::PortState;
use crate::strings::u64_to_dec;
use vstd::relations::sorted_by;
use vstd::seq_lib::lemma_sorted_unique;
use vstd::seq_lib::lemma_multiset_commutative;
use vstd::multiset::Multiset;

verus! {

broadcast use vstd::seq_lib::group_to_multiset_ensures;

/// The transport a port scan probed.
#[derive(Debug, Clone, Copy, PartialEq, Eq, Structural)]
pub enum Protocol {
    Tcp,
    Udp,
}

/// Which kind of scan produced the record batch; it picks the line format of
/// port records and the wording of the summary tail.
#[derive(Debug, Clone, Copy, PartialEq, Eq, Structural)]
pub enum ScanKind {
    HostDiscovery,
    PortScan(Protocol),
    OsDetection,
}

/// Mathematical image of a [`Report`].
pub struct ReportView {
    pub lines: Seq<Seq<char>>,
    pub tail: Seq<char>,
    pub hosts_up: u64,
    pub hosts_not_up: u64,
}

/// The rendered report: one line per surviving record (plus, for host
/// discovery, one collapsed line for the hosts that were down), a summary
/// tail, and the tallies behind them.
#[derive(Debug, Clone, PartialEq)]
pub struct Report {
    pub lines: Vec<String>,
    pub tail: String,
    pub hosts_up: u64,
    pub hosts_not_up: u64,
}

impl View for Report {
    type V = ReportView;

    open spec fn view(&self) -> ReportView {
        ReportView {
            lines: seq_views(self.lines@),
            tail: self.tail@,
            hosts_up: self.hosts_up,
            hosts_not_up: self.hosts_not_up,
        }
    }
}

/// Whether two records report on the same subject, so that only one of them
/// may stand in the report.
pub open spec fn same_key(a: RecordView, b: RecordView) -> bool {
    match (a, b) {
        (RecordView::Ping { addr: x, .. }, RecordView::Ping { addr: y, .. }) => x == y,
        (RecordView::Mac { addr: x, .. }, RecordView::Mac { addr: y, .. }) => x == y,
        (
            RecordView::Port { addr: x, port: p, .. },
            RecordView::Port { addr: y, port: q, .. },
        ) => x == y && p == q,
        (RecordView::OsGuess { addr: x, .. }, RecordView::OsGuess { addr: y, .. }) => x == y,
        _ => false,
    }
}

fn same_key_exec(a: &ResultRecord, b: &ResultRecord) -> (r: bool)
    ensures
        r == same_key(a@, b@),
{
    match (a, b) {
        (ResultRecord::Ping { addr: x, .. }, ResultRecord::Ping { addr: y, .. }) => *x == *y,
        (ResultRecord::Mac { addr: x, .. }, ResultRecord::Mac { addr: y, .. }) => *x == *y,
        (
            ResultRecord::Port { addr: x, port: p, .. },
            ResultRecord::Port { addr: y, port: q, .. },
        ) => *x == *y && *p == *q,
        (ResultRecord::OsGuess { addr: x, .. }, ResultRecord::OsGuess { addr: y, .. }) => *x
            == *y,
        _ => false,
    }
}

/// Drops each record whose key equals its predecessor's, keeping the first
/// (and, in sorted input, least) record of every key run.
pub open spec fn dedup_sorted(s: Seq<RecordView>) -> Seq<RecordView>
    decreases s.len(),
{
    if s.len() == 0 {
        s
    } else {
        let prev = dedup_sorted(s.drop_last());
        if prev.len() > 0 && same_key(prev.last(), s.last()) {
            prev
        } else {
            prev.push(s.last())
        }
    }
}

/// The record order as a binary relation value.
pub open spec fn record_order() -> spec_fn(RecordView, RecordView) -> bool {
    |a: RecordView, b: RecordView| record_le(a, b)
}

fn clone_strings(v: &Vec<String>) -> (r: Vec<String>)
    ensures
        seq_views(r@) == seq_views(v@),
{
    let mut out: Vec<String> = Vec::new();
    let mut i: usize = 0;
    proof {
        assert(seq_views(out@) =~= seq_views(v@).take(0));
    }
    while i < v.len()
        invariant
            0 <= i <= v@.len(),
            seq_views(out@) == seq_views(v@).take(i as int),
        decreases v@.len() - i,
    {
        let ghost prev = out@;
        out.push(v[i].clone());
        proof {
            prev.lemma_push_map_commute(|x: String| x@, out@[out@.len() - 1]);
            assert(seq_views(out@) =~= seq_views(v@).take(i + 1int));
        }
        i = i + 1;
    }
    proof {
        assert(seq_views(v@).take(v@.len() as int) =~= seq_views(v@));
    }
    out
}

fn clone_record(r: &ResultRecord) -> (c: ResultRecord)
    ensures
        c@ == r@,
{
    match r {
        ResultRecord::Ping { addr, status, cost_ms } => ResultRecord::Ping {
            addr: *addr,
            status: *status,
            cost_ms: *cost_ms,
        },
        ResultRecord::Mac { addr, mac, ouis, cost_ms } => ResultRecord::Mac {
            addr: *addr,
            mac: match mac {
                Some(m) => Some(m.clone()),
                None => None,
            },
            ouis: ouis.clone(),
            cost_ms: *cost_ms,
        },
        ResultRecord::Port { addr, port, status, cost_ms } => ResultRecord::Port {
            addr: *addr,
            port: *port,
            status: *status,
            cost_ms: *cost_ms,
        },
        ResultRecord::OsGuess { addr, names, cpes, cost_ms } => ResultRecord::OsGuess {
            addr: *addr,
            names: clone_strings(names),
            cpes: clone_strings(cpes),
            cost_ms: *cost_ms,
        },
    }
}

/// Inserting between the elements below and the elements not below keeps a
/// sequence sorted.
proof fn lemma_sorted_insert(s: Seq<RecordView>, x: RecordView, idx: int)
    requires
        sorted_by(s, record_order()),
        0 <= idx <= s.len(),
        forall|j: int| 0 <= j < idx ==> record_le(#[trigger] s[j], x),
        forall|j: int| idx <= j < s.len() ==> record_le(x, #[trigger] s[j]),
    ensures
        sorted_by(s.insert(idx, x), record_order()),
{
    let t = s.insert(idx, x);
    assert forall|i: int, j: int| 0 <= i < j < t.len() implies record_order()(t[i], t[j]) by {
        assert(t.len() == s.len() + 1);
        if i < idx && j < idx {
            assert(t[i] == s[i] && t[j] == s[j]);
        } else if i < idx && j == idx {
            assert(t[i] == s[i] && t[j] == x);
        } else if i < idx && j > idx {
            assert(t[i] == s[i] && t[j] == s[j - 1]);
            assert(record_le(s[i], x));
            assert(record_le(x, s[j - 1]));
            crate::records::lemma_record_le_total_ordering();
        } else if i == idx {
            assert(t[i] == x && t[j] == s[j - 1]);
        } else {
            assert(t[i] == s[i - 1] && t[j] == s[j - 1]);
        }
    }
}

/// Sorts a record batch into the total content order.
fn sort_records(records: &Vec<ResultRecord>) -> (r: Vec<ResultRecord>)
    ensures
        sorted_by(rec_views(r@), record_order()),
        rec_views(r@).to_multiset() == rec_views(records@).to_multiset(),
{
    let mut out: Vec<ResultRecord> = Vec::new();
    let mut i: usize = 0;
    proof {
        assert(rec_views(out@) =~= Seq::<RecordView>::empty());
        assert(rec_views(records@.take(0)) =~= Seq::<RecordView>::empty());
    }
    while i < records.len()
        invariant
            0 <= i <= records@.len(),
            sorted_by(rec_views(out@), record_order()),
            rec_views(out@).to_multiset() == rec_views(records@.take(i as int)).to_multiset(),
        decreases records@.len() - i,
    {
        let rec = clone_record(&records[i]);
        let ghost rv = rec@;
        let ghost out_views = rec_views(out@);
        let mut idx: usize = 0;
        loop
            invariant
                0 <= idx <= out@.len(),
                rv == rec@,
                out_views == rec_views(out@),
                forall|j: int| 0 <= j < idx ==> !record_le(rv, #[trigger] out_views[j]),
            ensures
                0 <= idx <= out_views.len(),
                forall|j: int| 0 <= j < idx ==> !record_le(rv, #[trigger] out_views[j]),
                idx < out_views.len() ==> record_le(rv, out_views[idx as int]),
            decreases out@.len() - idx,
        {
            if idx >= out.len() {
                break;
            }
            proof {
                assert(out_views[idx as int] == out@[idx as int]@);
            }
            if record_le_exec(&rec, &out[idx]) {
                break;
            }
            idx = idx + 1;
        }
        proof {
            lemma_record_le_total_ordering();
            assert forall|j: int| 0 <= j < idx implies record_le(#[trigger] out_views[j], rv) by {
                assert(record_order()(out_views[j], rv) || record_order()(rv, out_views[j]));
            }
            assert forall|j: int| idx <= j < out_views.len() implies record_le(
                rv,
                #[trigger] out_views[j],
            ) by {
                assert(record_le(rv, out_views[idx as int]));
                assert(record_order()(rv, out_views[idx as int]));
                if j > idx {
                    assert(record_order()(out_views[idx as int], out_views[j]));
                    assert(record_order()(rv, out_views[j]));
                }
            }
            lemma_sorted_insert(out_views, rv, idx as int);
        }
        let ghost out_before = out@;
        out.insert(idx, rec);
        proof {
            assert(rec_views(out@) =~= rec_views(out_before).insert(idx as int, rv));
            // Multiset bookkeeping: inserting one record adds it to the batch.
            let ovs = rec_views(out_before);
            let nvs = rec_views(out@);
            assert(nvs =~= ovs.take(idx as int) + (seq![rv] + ovs.skip(idx as int)));
            lemma_multiset_commutative(ovs.take(idx as int), seq![rv] + ovs.skip(idx as int));
            lemma_multiset_commutative(seq![rv], ovs.skip(idx as int));
            assert(ovs =~= ovs.take(idx as int) + ovs.skip(idx as int));
            lemma_multiset_commutative(ovs.take(idx as int), ovs.skip(idx as int));
            assert(seq![rv].to_multiset() =~= Multiset::<RecordView>::empty().insert(rv)) by {
                assert(seq![rv] =~= Seq::<RecordView>::empty().push(rv));
            }
            assert(nvs.to_multiset() =~= ovs.to_multiset().insert(rv));
            assert(records@.take(i + 1int).drop_last() =~= records@.take(i as int));
            assert(rec_views(records@.take(i + 1int)) =~= rec_views(
                records@.take(i as int),
            ).push(rv));
            assert(rec_views(records@.take(i + 1int)).to_multiset() =~= rec_views(
                records@.take(i as int),
            ).to_multiset().insert(rv));
        }
        i = i + 1;
    }
    proof {
        assert(records@.take(records@.len() as int) =~= records@);
    }
    out
}

/// Collapses each run of records sharing a key to its first record.
fn dedup_records(sorted: Vec<ResultRecord>) -> (r: Vec<ResultRecord>)
    ensures
        rec_views(r@) == dedup_sorted(rec_views(sorted@)),
{
    let ghost sv = rec_views(sorted@);
    let mut out: Vec<ResultRecord> = Vec::new();
    let mut i: usize = 0;
    proof {
        assert(sv.take(0) =~= Seq::<RecordView>::empty());
        assert(rec_views(out@) =~= dedup_sorted(sv.take(0)));
    }
    while i < sorted.len()
        invariant
            0 <= i <= sorted@.len(),
            sv == rec_views(sorted@),
            rec_views(out@) == dedup_sorted(sv.take(i as int)),
        decreases sorted@.len() - i,
    {
        proof {
            assert(sv.take(i + 1int).drop_last() =~= sv.take(i as int));
            assert(sv.take(i + 1int).last() == sv[i as int]);
            assert(sv[i as int] == sorted@[i as int]@);
        }
        let keep = if out.len() == 0 {
            true
        } else {
            proof {
                assert(rec_views(out@).last() == out@[out@.len() - 1]@);
            }
            !same_key_exec(&out[out.len() - 1], &sorted[i])
        };
        if keep {
            out.push(clone_record(&sorted[i]));
            proof {
                assert(rec_views(out@) =~= rec_views(out@.drop_last()).push(sv[i as int]));
                assert(rec_views(out@) =~= dedup_sorted(sv.take(i + 1int)));
            }
        } else {
            proof {
                assert(rec_views(out@) =~= dedup_sorted(sv.take(i + 1int)));
            }
        }
        i = i + 1;
    }
    proof {
        assert(sv.take(sv.len() as int) =~= sv);
    }
    out
}

/// Whether a record counts toward the up tally: a host seen up, a MAC
/// answer, or an open port.
pub open spec fn is_up(r: RecordView) -> bool {
    match r {
        RecordView::Ping { status, .. } => status is Up,
        RecordView::Mac { mac, .. } => mac is Some,
        RecordView::Port { status, .. } => status is Open,
        RecordView::OsGuess { .. } => false,
    }
}

/// Whether a record counts toward the collapsed "down" tally: a host not
/// seen up or a MAC probe with no answer.
pub open spec fn is_down(r: RecordView) -> bool {
    match r {
        RecordView::Ping { status, .. } => !(status is Up),
        RecordView::Mac { mac, .. } => mac is None,
        _ => false,
    }
}

/// Whether a record gets a line of its own (hosts that were down are
/// collapsed into one line instead).
pub open spec fn makes_line(r: RecordView) -> bool {
    match r {
        RecordView::Ping { status, .. } => status is Up,
        RecordView::Mac { mac, .. } => mac is Some,
        _ => true,
    }
}

fn is_up_exec(r: &ResultRecord) -> (b: bool)
    ensures
        b == is_up(r@),
{
    match r {
        ResultRecord::Ping { status, .. } => *status == PingState::Up,
        ResultRecord::Mac { mac, .. } => mac.is_some(),
        ResultRecord::Port { status, .. } => *status == PortState::Open,
        ResultRecord::OsGuess { .. } => false,
    }
}

fn is_down_exec(r: &ResultRecord) -> (b: bool)
    ensures
        b == is_down(r@),
{
    match r {
        ResultRecord::Ping { status, .. } => !(*status == PingState::Up),
        ResultRecord::Mac { mac, .. } => mac.is_none(),
        _ => false,
    }
}

fn makes_line_exec(r: &ResultRecord) -> (b: bool)
    ensures
        b == makes_line(r@),
{
    match r {
        ResultRecord::Ping { status, .. } => *status == PingState::Up,
        ResultRecord::Mac { mac, .. } => mac.is_some(),
        _ => true,
    }
}

/// Elapsed milliseconds as seconds with two decimals, rounded half up.
pub open spec fn secs_chars(ms: u64) -> Seq<char> {
    let cs = ms / 10 + if ms % 10 >= 5 {
        1int
    } else {
        0int
    };
    dec_chars((cs / 100) as nat) + seq!['.'] + (if cs % 100 < 10 {
        seq!['0']
    } else {
        Seq::<char>::empty()
    }) + dec_chars((cs % 100) as nat)
}

pub fn secs_to_string(ms: u64) -> (r: String)
    ensures
        r@ == secs_chars(ms),
{
    proof {
        reveal_strlit(".");
        reveal_strlit("0");
    }
    let cs: u64 = ms / 10 + if ms % 10 >= 5 {
        1
    } else {
        0
    };
    let mut s = u64_to_dec(cs / 100);
    s.append(".");
    if cs % 100 < 10 {
        s.append("0");
    }
    let frac = u64_to_dec(cs % 100);
    s.append(frac.as_str());
    proof {
        assert(s@ =~= secs_chars(ms));
    }
    s
}

pub open spec fn ping_status_chars(st: PingState) -> Seq<char> {
    match st {
        PingState::Up => "up"@,
        PingState::Down => "down"@,
        PingState::Error => "error"@,
    }
}

fn ping_status_str(st: PingState) -> (r: &'static str)
    ensures
        r@ == ping_status_chars(st),
{
    match st {
        PingState::Up => "up",
        PingState::Down => "down",
        PingState::Error => "error",
    }
}

pub open spec fn port_status_chars(st: PortState) -> Seq<char> {
    match st {
        PortState::Open => "open"@,
        PortState::Closed => "closed"@,
        PortState::Filtered => "filtered"@,
        PortState::OpenOrFiltered => "open_or_filtered"@,
        PortState::Unfiltered => "unfiltered"@,
        PortState::Unreachable => "unreachable"@,
        PortState::ClosedOrFiltered => "closed_or_filtered"@,
        PortState::Error => "error"@,
        PortState::Offline => "offline"@,
    }
}

fn port_status_str(st: PortState) -> (r: &'static str)
    ensures
        r@ == port_status_chars(st),
{
    match st {
        PortState::Open => "open",
        PortState::Closed => "closed",
        PortState::Filtered => "filtered",
        PortState::OpenOrFiltered => "open_or_filtered",
        PortState::Unfiltered => "unfiltered",
        PortState::Unreachable => "unreachable",
        PortState::ClosedOrFiltered => "closed_or_filtered",
        PortState::Error => "error",
        PortState::Offline => "offline",
    }
}

pub open spec fn proto_chars(p: Protocol) -> Seq<char> {
    match p {
        Protocol::Tcp => "tcp"@,
        Protocol::Udp => "udp"@,
    }
}

fn proto_str(p: Protocol) -> (r: &'static str)
    ensures
        r@ == proto_chars(p),
{
    match p {
        Protocol::Tcp => "tcp",
        Protocol::Udp => "udp",
    }
}

/// The protocol a port line names; outside a port scan it defaults to TCP.
pub open spec fn proto_of(kind: ScanKind) -> Protocol {
    match kind {
        ScanKind::PortScan(p) => p,
        _ => Protocol::Tcp,
    }
}

fn proto_of_exec(kind: ScanKind) -> (p: Protocol)
    ensures
        p == proto_of(kind),
{
    match kind {
        ScanKind::PortScan(p) => p,
        _ => Protocol::Tcp,
    }
}

/// The pieces joined with a bar.
pub open spec fn join_bar(xs: Seq<Seq<char>>) -> Seq<char>
    decreases xs.len(),
{
    if xs.len() == 0 {
        Seq::empty()
    } else if xs.len() == 1 {
        xs[0]
    } else {
        join_bar(xs.drop_last()) + seq!['|'] + xs.last()
    }
}

fn join_bar_exec(v: &Vec<String>) -> (r: String)
    ensures
        r@ == join_bar(seq_views(v@)),
{
    proof {
        reveal_strlit("|");
    }
    let ghost views = seq_views(v@);
    let mut s = String::new();
    let mut i: usize = 0;
    proof {
        assert(views.take(0) =~= Seq::<Seq<char>>::empty());
    }
    while i < v.len()
        invariant
            0 <= i <= v@.len(),
            views == seq_views(v@),
            s@ == join_bar(views.take(i as int)),
        decreases v@.len() - i,
    {
        proof {
            reveal_strlit("|");
            assert(views[i as int] == v@[i as int]@);
            assert(views.take(i + 1int).drop_last() =~= views.take(i as int));
            assert(views.take(i + 1int).last() == views[i as int]);
        }
        if i > 0 {
            s.append("|");
        }
        s.append(v[i].as_str());
        proof {
            if i == 0 {
                assert(s@ =~= views.take(1)[0]);
            } else {
                assert(s@ =~= join_bar(views.take(i + 1int)));
            }
        }
        i = i + 1;
    }
    proof {
        assert(views.take(views.len() as int) =~= views);
    }
    s
}

/// The report line of one record.
pub open spec fn record_line(r: RecordView, proto: Protocol) -> Seq<char> {
    match r {
        RecordView::Ping { addr, status, cost_ms } => ip_chars(addr) + " -> "@
            + ping_status_chars(status) + " ("@ + secs_chars(cost_ms) + "s)"@,
        RecordView::Mac { addr, mac, ouis, cost_ms } => ip_chars(addr) + " -> up ("@
            + secs_chars(cost_ms) + "s) ("@ + (match mac {
            Some(m) => m,
            None => Seq::<char>::empty(),
        }) + ") ("@ + ouis + ")"@,
        RecordView::Port { addr, port, status, cost_ms } => ip_chars(addr) + ":"@ + dec_chars(
            port as nat,
        ) + "/"@ + proto_chars(proto) + " -> "@ + port_status_chars(status) + " ("@ + secs_chars(
            cost_ms,
        ) + "s)"@,
        RecordView::OsGuess { addr, names, cpes, cost_ms } => ip_chars(addr) + " -> "@ + join_bar(
            names,
        ) + " "@ + join_bar(cpes) + " ("@ + secs_chars(cost_ms) + "s)"@,
    }
}

fn record_line_exec(r: &ResultRecord, proto: Protocol) -> (line: String)
    ensures
        line@ == record_line(r@, proto),
{
    proof {
        reveal_strlit(" -> ");
        reveal_strlit(" (");
        reveal_strlit("s)");
        reveal_strlit(" -> up (");
        reveal_strlit("s) (");
        reveal_strlit(") (");
        reveal_strlit(")");
        reveal_strlit(":");
        reveal_strlit("/");
        reveal_strlit(" ");
    }
    match r {
        ResultRecord::Ping { addr, status, cost_ms } => {
            let mut s = ip_to_string(addr);
            s.append(" -> ");
            s.append(ping_status_str(*status));
            s.append(" (");
            let secs = secs_to_string(*cost_ms);
            s.append(secs.as_str());
            s.append("s)");
            proof {
                assert(s@ =~= record_line(r@, proto));
            }
            s
        },
        ResultRecord::Mac { addr, mac, ouis, cost_ms } => {
            let mut s = ip_to_string(addr);
            s.append(" -> up (");
            let secs = secs_to_string(*cost_ms);
            s.append(secs.as_str());
            s.append("s) (");
            match mac {
                Some(m) => {
                    s.append(m.as_str());
                },
                None => {},
            }
            s.append(") (");
            s.append(ouis.as_str());
            s.append(")");
            proof {
                assert(s@ =~= record_line(r@, proto));
            }
            s
        },
        ResultRecord::Port { addr, port, status, cost_ms } => {
            let mut s = ip_to_string(addr);
            s.append(":");
            let pt = u64_to_dec(*port as u64);
            s.append(pt.as_str());
            s.append("/");
            s.append(proto_str(proto));
            s.append(" -> ");
            s.append(port_status_str(*status));
            s.append(" (");
            let secs = secs_to_string(*cost_ms);
            s.append(secs.as_str());
            s.append("s)");
            proof {
                assert(s@ =~= record_line(r@, proto));
            }
            s
        },
        ResultRecord::OsGuess { addr, names, cpes, cost_ms } => {
            let mut s = ip_to_string(addr);
            s.append(" -> ");
            let ns = join_bar_exec(names);
            s.append(ns.as_str());
            s.append(" ");
            let cs = join_bar_exec(cpes);
            s.append(cs.as_str());
            s.append(" (");
            let secs = secs_to_string(*cost_ms);
            s.append(secs.as_str());
            s.append("s)");
            proof {
                assert(s@ =~= record_line(r@, proto));
            }
            s
        },
    }
}

/// The collapsed line for the hosts that were not up.
pub open spec fn down_line(n: u64) -> Seq<char> {
    "other "@ + dec_chars(n as nat) + " hosts -> down"@
}

fn down_line_exec(n: u64) -> (r: String)
    ensures
        r@ == down_line(n),
{
    proof {
        reveal_strlit("other ");
        reveal_strlit(" hosts -> down");
    }
    let mut s = String::from_str("other ");
    let num = u64_to_dec(n);
    s.append(num.as_str());
    s.append(" hosts -> down");
    proof {
        assert(s@ =~= down_line(n));
    }
    s
}

/// The summary tail: target count, the relevant up-count, and the batch's
/// wall-clock seconds (no counts for OS detection).
pub open spec fn tail_chars(kind: ScanKind, n_targets: u64, up: u64, elapsed_ms: u64) -> Seq<
    char,
> {
    match kind {
        ScanKind::HostDiscovery => "pslmap done: "@ + dec_chars(n_targets as nat)
            + " ip addresses ("@ + dec_chars(up as nat) + " hosts up) scanned in "@ + secs_chars(
            elapsed_ms,
        ) + " seconds"@,
        ScanKind::PortScan(_) => "pslmap done: "@ + dec_chars(n_targets as nat)
            + " ip addresses ("@ + dec_chars(up as nat) + " ports up) scanned in "@ + secs_chars(
            elapsed_ms,
        ) + " seconds"@,
        ScanKind::OsDetection => "pslmap done: scanned in "@ + secs_chars(elapsed_ms)
            + " seconds"@,
    }
}

fn tail_exec(kind: ScanKind, n_targets: u64, up: u64, elapsed_ms: u64) -> (r: String)
    ensures
        r@ == tail_chars(kind, n_targets, up, elapsed_ms),
{
    proof {
        reveal_strlit("pslmap done: ");
        reveal_strlit(" ip addresses (");
        reveal_strlit(" hosts up) scanned in ");
        reveal_strlit(" ports up) scanned in ");
        reveal_strlit(" seconds");
        reveal_strlit("pslmap done: scanned in ");
    }
    match kind {
        ScanKind::OsDetection => {
            let mut s = String::from_str("pslmap done: scanned in ");
            let secs = secs_to_string(elapsed_ms);
            s.append(secs.as_str());
            s.append(" seconds");
            proof {
                assert(s@ =~= tail_chars(kind, n_targets, up, elapsed_ms));
            }
            s
        },
        _ => {
            let mut s = String::from_str("pslmap done: ");
            let nt = u64_to_dec(n_targets);
            s.append(nt.as_str());
            s.append(" ip addresses (");
            let ut = u64_to_dec(up);
            s.append(ut.as_str());
            match kind {
                ScanKind::PortScan(_) => s.append(" ports up) scanned in "),
                _ => s.append(" hosts up) scanned in "),
            }
            let secs = secs_to_string(elapsed_ms);
            s.append(secs.as_str());
            s.append(" seconds");
            proof {
                assert(s@ =~= tail_chars(kind, n_targets, up, elapsed_ms));
            }
            s
        },
    }
}

/// The report of an already sorted and deduplicated record sequence.
pub open spec fn render_report(
    kind: ScanKind,
    rs: Seq<RecordView>,
    n_targets: u64,
    elapsed_ms: u64,
) -> ReportView {
    let up = rs.filter(|r: RecordView| is_up(r)).len();
    let down = rs.filter(|r: RecordView| is_down(r)).len();
    ReportView {
        lines: rs.filter(|r: RecordView| makes_line(r)).map_values(
            |r: RecordView| record_line(r, proto_of(kind)),
        ) + if down > 0 {
            seq![down_line(down as u64)]
        } else {
            Seq::<Seq<char>>::empty()
        },
        tail: tail_chars(kind, n_targets, up as u64, elapsed_ms),
        hosts_up: up as u64,
        hosts_not_up: down as u64,
    }
}

/// What `aggregate` returns: the records sorted into the total content
/// order, collapsed by key, and rendered.
pub open spec fn aggregate_spec(
    kind: ScanKind,
    rs: Seq<RecordView>,
    n_targets: u64,
    elapsed_ms: u64,
) -> ReportView {
    render_report(kind, dedup_sorted(rs.sort_by(record_order())), n_targets, elapsed_ms)
}

/// Aggregates one complete batch of engine records into the report.
///
/// The records are sorted by kind, address and port (ties broken by every
/// remaining field), records sharing a key are collapsed to the one sorting
/// first, each surviving record is rendered to its line — hosts that were
/// down are instead counted and collapsed into one line — and the tail
/// summarizes the batch.
pub fn aggregate(
    kind: ScanKind,
    records: &Vec<ResultRecord>,
    n_targets: u64,
    elapsed_ms: u64,
) -> (r: Report)
    ensures
        r@ == aggregate_spec(kind, rec_views(records@), n_targets, elapsed_ms),
{
    let sorted = sort_records(records);
    proof {
        lemma_record_le_total_ordering();
        rec_views(records@).lemma_sort_by_ensures(record_order());
        lemma_sorted_unique(
            rec_views(sorted@),
            rec_views(records@).sort_by(record_order()),
            record_order(),
        );
        assert(rec_views(sorted@) == rec_views(records@).sort_by(record_order()));
    }
    let kept = dedup_records(sorted);
    let ghost kv = rec_views(kept@);
    let ghost keep_up = |r: RecordView| is_up(r);
    let ghost keep_down = |r: RecordView| is_down(r);
    let ghost keep_line = |r: RecordView| makes_line(r);
    let ghost to_line = |r: RecordView| record_line(r, proto_of(kind));
    let proto = proto_of_exec(kind);
    let mut up: u64 = 0;
    let mut down: u64 = 0;
    let mut lines: Vec<String> = Vec::new();
    let mut i: usize = 0;
    proof {
        assert(kv.take(0) =~= Seq::<RecordView>::empty());
        assert(kv.take(0).filter(keep_up) =~= Seq::<RecordView>::empty());
        assert(kv.take(0).filter(keep_down) =~= Seq::<RecordView>::empty());
        assert(kv.take(0).filter(keep_line) =~= Seq::<RecordView>::empty());
        assert(seq_views(lines@) =~= kv.take(0).filter(keep_line).map_values(to_line));
    }
    while i < kept.len()
        invariant
            0 <= i <= kept@.len(),
            kv == rec_views(kept@),
            keep_up == (|r: RecordView| is_up(r)),
            keep_down == (|r: RecordView| is_down(r)),
            keep_line == (|r: RecordView| makes_line(r)),
            to_line == (|r: RecordView| record_line(r, proto_of(kind))),
            proto == proto_of(kind),
            up == kv.take(i as int).filter(keep_up).len(),
            down == kv.take(i as int).filter(keep_down).len(),
            up <= i,
            down <= i,
            seq_views(lines@) == kv.take(i as int).filter(keep_line).map_values(to_line),
        decreases kept@.len() - i,
    {
        proof {
            reveal(Seq::filter);
            assert(kv[i as int] == kept@[i as int]@);
            assert(kv.take(i + 1int).drop_last() =~= kv.take(i as int));
            assert(kv.take(i + 1int).last() == kv[i as int]);
            kv.take(i as int).lemma_filter_len(keep_up);
            kv.take(i as int).lemma_filter_len(keep_down);
        }
        if is_up_exec(&kept[i]) {
            up = up + 1;
        }
        if is_down_exec(&kept[i]) {
            down = down + 1;
        }
        if makes_line_exec(&kept[i]) {
            let ghost prev = lines@;
            lines.push(record_line_exec(&kept[i], proto));
            proof {
                prev.lemma_push_map_commute(|x: String| x@, lines@[lines@.len() - 1]);
                assert(seq_views(lines@) =~= seq_views(prev).push(to_line(kv[i as int])));
                assert(seq_views(lines@) =~= kv.take(i + 1int).filter(keep_line).map_values(
                    to_line,
                ));
            }
        } else {
            proof {
                assert(seq_views(lines@) =~= kv.take(i + 1int).filter(keep_line).map_values(
                    to_line,
                ));
            }
        }
        i = i + 1;
    }
    proof {
        assert(kv.take(kv.len() as int) =~= kv);
    }
    if down > 0 {
        let ghost prev = lines@;
        lines.push(down_line_exec(down));
        proof {
            prev.lemma_push_map_commute(|x: String| x@, lines@[lines@.len() - 1]);
            assert(seq_views(lines@) =~= kv.filter(keep_line).map_values(to_line) + seq![
                down_line(down),
            ]);
        }
    }
    let tail = tail_exec(kind, n_targets, up, elapsed_ms);
    let rep = Report { lines, tail, hosts_up: up, hosts_not_up: down };
    proof {
        let expected = aggregate_spec(kind, rec_views(records@), n_targets, elapsed_ms);
        if down > 0 {
        } else {
            assert(seq_views(rep.lines@) =~= kv.filter(keep_line).map_values(to_line)
                + Seq::<Seq<char>>::empty());
        }
        assert(rep@.lines =~= expected.lines);
        assert(rep@ == expected);
    }
    rep
}

/// Shuffling the record batch does not change the report: aggregation
/// depends only on which records are in the batch, with the sort order,
/// the key collapse and the tallies all fixed by content alone.
pub proof fn lemma_aggregate_permutation(
    kind: ScanKind,
    rs1: Seq<RecordView>,
    rs2: Seq<RecordView>,
    n_targets: u64,
    elapsed_ms: u64,
)
    requires
        rs1.to_multiset() == rs2.to_multiset(),
    ensures
        aggregate_spec(kind, rs1, n_targets, elapsed_ms) == aggregate_spec(
            kind,
            rs2,
            n_targets,
            elapsed_ms,
        ),
{
    lemma_record_le_total_ordering();
    rs1.lemma_sort_by_ensures(record_order());
    rs2.lemma_sort_by_ensures(record_order());
    lemma_sorted_unique(rs1.sort_by(record_order()), rs2.sort_by(record_order()), record_order());
}

/// Squeezed between two records of one key, a record shares that key.
proof fn lemma_key_squeeze(a: RecordView, b: RecordView, c: RecordView)
    requires
        record_le(a, b),
        record_le(b, c),
        same_key(a, c),
    ensures
        same_key(a, b),
        same_key(b, c),
{
    assert(crate::records::tag_of(a) == crate::records::tag_of(c));
    if crate::records::tag_of(a) != crate::records::tag_of(b) {
        assert(crate::records::tag_of(a) < crate::records::tag_of(b));
        assert(crate::records::tag_of(b) <= crate::records::tag_of(c));
        assert(false);
    }
    assert(crate::records::tag_of(a) == crate::records::tag_of(b));
}

proof fn lemma_sorted_drop_last(s: Seq<RecordView>)
    requires
        sorted_by(s, record_order()),
        s.len() > 0,
    ensures
        sorted_by(s.drop_last(), record_order()),
{
    assert forall|i: int, j: int|
        0 <= i < j < s.drop_last().len() implies record_order()(
        s.drop_last()[i],
        s.drop_last()[j],
    ) by {
        assert(s.drop_last()[i] == s[i]);
        assert(s.drop_last()[j] == s[j]);
        assert(record_order()(s[i], s[j]));
    }
}

proof fn lemma_dedup_sorted_props(s: Seq<RecordView>)
    requires
        sorted_by(s, record_order()),
    ensures
        sorted_by(dedup_sorted(s), record_order()),
        forall|i: int, j: int|
            0 <= i < j < dedup_sorted(s).len() ==> !same_key(
                #[trigger] dedup_sorted(s)[i],
                #[trigger] dedup_sorted(s)[j],
            ),
        s.len() > 0 ==> dedup_sorted(s).len() > 0 && same_key(dedup_sorted(s).last(), s.last()),
        forall|i: int|
            0 <= i < dedup_sorted(s).len() && s.len() > 0 ==> record_le(
                #[trigger] dedup_sorted(s)[i],
                s.last(),
            ),
    decreases s.len(),
{
    if s.len() == 0 {
    } else {
        lemma_sorted_drop_last(s);
        lemma_dedup_sorted_props(s.drop_last());
        let prev = dedup_sorted(s.drop_last());
        let d = dedup_sorted(s);
        let l = s.last();
        assert forall|i: int|
            0 <= i < prev.len() && s.drop_last().len() > 0 implies record_le(
            #[trigger] prev[i],
            l,
        ) by {
            assert(record_le(prev[i], s.drop_last().last()));
            assert(record_order()(s[s.len() - 2], s[s.len() - 1]));
            crate::records::lemma_record_le_total_ordering();
            assert(record_order()(prev[i], s.drop_last().last()));
            assert(record_order()(prev[i], l));
        }
        if prev.len() > 0 && same_key(prev.last(), l) {
            assert(d == prev);
            assert(s.drop_last().len() > 0);
        } else {
            assert(d == prev.push(l));
            assert forall|i: int, j: int|
                0 <= i < j < d.len() implies !same_key(#[trigger] d[i], #[trigger] d[j]) by {
                if j < prev.len() {
                    assert(!same_key(prev[i], prev[j]));
                } else {
                    assert(d[j] == l);
                    if same_key(d[i], l) {
                        assert(s.drop_last().len() > 0);
                        assert(record_le(prev[i], prev.last()) || i == prev.len() - 1) by {
                            if i < prev.len() - 1 {
                                assert(record_order()(prev[i], prev[prev.len() - 1]));
                            }
                        }
                        if i == prev.len() - 1 {
                            assert(same_key(prev.last(), l));
                        } else {
                            assert(record_le(prev.last(), s.drop_last().last()));
                            assert(record_le(s.drop_last().last(), l));
                            crate::records::lemma_record_le_total_ordering();
                            assert(record_order()(prev.last(), s.drop_last().last()));
                            assert(record_order()(prev.last(), l));
                            lemma_key_squeeze(prev[i], prev.last(), l);
                            assert(same_key(prev[i], prev.last()));
                        }
                        assert(false);
                    }
                }
            }
            assert forall|i: int, j: int|
                0 <= i < j < d.len() implies record_order()(d[i], d[j]) by {
                if j < prev.len() {
                    assert(record_order()(prev[i], prev[j]));
                } else {
                    if s.drop_last().len() > 0 {
                        assert(record_le(prev[i], l));
                    }
                    assert(record_order()(d[i], d[j]));
                }
            }
            crate::records::lemma_record_le_total_ordering();
            assert(same_key(l, l)) by {
                match l {
                    RecordView::Ping { .. } => {},
                    RecordView::Mac { .. } => {},
                    RecordView::Port { .. } => {},
                    RecordView::OsGuess { .. } => {},
                }
            }
        }
    }
}

/// After the collapse, the report's records are still in order and no two of
/// them report on the same subject: one line per key survives.
pub proof fn lemma_dedup_sorted_distinct_keys(s: Seq<RecordView>)
    requires
        sorted_by(s, record_order()),
    ensures
        sorted_by(dedup_sorted(s), record_order()),
        forall|i: int, j: int|
            0 <= i < j < dedup_sorted(s).len() ==> !same_key(
                #[trigger] dedup_sorted(s)[i],
                #[trigger] dedup_sorted(s)[j],
            ),
{
    lemma_dedup_sorted_props(s);
}

} // verus!
