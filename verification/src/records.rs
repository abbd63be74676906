//! The result-record model: one outcome unit per probe, as the scanning
//! engine reports it, together with a total content order.
//!
//! The order sorts primarily by record kind, address and port — the report's
//! published order — and then by every remaining field, so that any two
//! distinct records compare strictly one way. That makes the sorted sequence
//! of a record batch depend only on which records are in it, never on
//! arrival order.

use vstd::prelude::*;

use crate::addr::IpAddress;
use crate::addr::ip_le;
use crate::addr::ip_le_exec;

verus! {

/// Host-discovery outcome for one address.
#[derive(Debug, Clone, Copy, PartialEq, Eq, Structural)]
pub enum PingState {
    Up,
    Down,
    Error,
}

/// Port-scan outcome for one address and port.
#[derive(Debug, Clone, Copy, PartialEq, Eq, Structural)]
pub enum PortState {
    Open,
    Closed,
    Filtered,
    OpenOrFiltered,
    Unfiltered,
    Unreachable,
    ClosedOrFiltered,
    Error,
    Offline,
}

/// Mathematical image of a [`ResultRecord`].
pub enum RecordView {
    Ping { addr: IpAddress, status: PingState, cost_ms: u64 },
    Mac { addr: IpAddress, mac: Option<Seq<char>>, ouis: Seq<char>, cost_ms: u64 },
    Port { addr: IpAddress, port: u16, status: PortState, cost_ms: u64 },
    OsGuess { addr: IpAddress, names: Seq<Seq<char>>, cpes: Seq<Seq<char>>, cost_ms: u64 },
}

/// One probe outcome: a host-discovery status, a MAC-scan answer, a port
/// status, or an OS-detection candidate list, with the probe's elapsed time
/// in milliseconds.
#[derive(Debug, Clone, PartialEq)]
pub enum ResultRecord {
    Ping { addr: IpAddress, status: PingState, cost_ms: u64 },
    Mac { addr: IpAddress, mac: Option<String>, ouis: String, cost_ms: u64 },
    Port { addr: IpAddress, port: u16, status: PortState, cost_ms: u64 },
    OsGuess { addr: IpAddress, names: Vec<String>, cpes: Vec<String>, cost_ms: u64 },
}

impl View for ResultRecord {
    type V = RecordView;

    open spec fn view(&self) -> RecordView {
        match self {
            ResultRecord::Ping { addr, status, cost_ms } => RecordView::Ping {
                addr: *addr,
                status: *status,
                cost_ms: *cost_ms,
            },
            ResultRecord::Mac { addr, mac, ouis, cost_ms } => RecordView::Mac {
                addr: *addr,
                mac: match mac {
                    Some(m) => Some(m@),
                    None => None,
                },
                ouis: ouis@,
                cost_ms: *cost_ms,
            },
            ResultRecord::Port { addr, port, status, cost_ms } => RecordView::Port {
                addr: *addr,
                port: *port,
                status: *status,
                cost_ms: *cost_ms,
            },
            ResultRecord::OsGuess { addr, names, cpes, cost_ms } => RecordView::OsGuess {
                addr: *addr,
                names: crate::strings::seq_views(names@),
                cpes: crate::strings::seq_views(cpes@),
                cost_ms: *cost_ms,
            },
        }
    }
}

/// The views of a vector of records.
pub open spec fn rec_views(v: Seq<ResultRecord>) -> Seq<RecordView> {
    v.map_values(|r: ResultRecord| r@)
}

/// Lexicographic order on character sequences by code point.
pub open spec fn chars_le(a: Seq<char>, b: Seq<char>) -> bool
    decreases a.len(),
{
    if a.len() == 0 {
        true
    } else if b.len() == 0 {
        false
    } else if a[0] != b[0] {
        (a[0] as u32) < (b[0] as u32)
    } else {
        chars_le(a.drop_first(), b.drop_first())
    }
}

/// Lexicographic order on sequences of character sequences.
pub open spec fn strs_le(a: Seq<Seq<char>>, b: Seq<Seq<char>>) -> bool
    decreases a.len(),
{
    if a.len() == 0 {
        true
    } else if b.len() == 0 {
        false
    } else if a[0] != b[0] {
        chars_le(a[0], b[0])
    } else {
        strs_le(a.drop_first(), b.drop_first())
    }
}

/// Order on optional strings: absent before present.
pub open spec fn opt_chars_le(a: Option<Seq<char>>, b: Option<Seq<char>>) -> bool {
    match (a, b) {
        (None, _) => true,
        (Some(_), None) => false,
        (Some(x), Some(y)) => chars_le(x, y),
    }
}

pub proof fn lemma_chars_le_connected(a: Seq<char>, b: Seq<char>)
    ensures
        chars_le(a, b) || chars_le(b, a),
    decreases a.len(),
{
    if a.len() > 0 && b.len() > 0 {
        if a[0] == b[0] {
            lemma_chars_le_connected(a.drop_first(), b.drop_first());
        } else {
            assert((a[0] as u32) != (b[0] as u32)) by {
                vstd::utf8::char_u32_cast(a[0], a[0] as u32);
                vstd::utf8::char_u32_cast(b[0], b[0] as u32);
            }
        }
    }
}

pub proof fn lemma_chars_le_antisymmetric(a: Seq<char>, b: Seq<char>)
    requires
        chars_le(a, b),
        chars_le(b, a),
    ensures
        a == b,
    decreases a.len(),
{
    if a.len() == 0 {
        assert(b.len() == 0);
        assert(a =~= b);
    } else {
        assert(b.len() > 0);
        assert(a[0] == b[0]);
        lemma_chars_le_antisymmetric(a.drop_first(), b.drop_first());
        assert(a.len() == b.len());
        assert forall|i: int| 0 <= i < a.len() implies a[i] == b[i] by {
            if i > 0 {
                assert(a.drop_first()[i - 1] == b.drop_first()[i - 1]);
            }
        }
        assert(a =~= b);
    }
}

pub proof fn lemma_chars_le_transitive(a: Seq<char>, b: Seq<char>, c: Seq<char>)
    requires
        chars_le(a, b),
        chars_le(b, c),
    ensures
        chars_le(a, c),
    decreases a.len(),
{
    if a.len() > 0 {
        assert(b.len() > 0);
        assert(c.len() > 0);
        if a[0] == b[0] && b[0] == c[0] {
            lemma_chars_le_transitive(a.drop_first(), b.drop_first(), c.drop_first());
        }
    }
}

pub proof fn lemma_strs_le_connected(a: Seq<Seq<char>>, b: Seq<Seq<char>>)
    ensures
        strs_le(a, b) || strs_le(b, a),
    decreases a.len(),
{
    if a.len() > 0 && b.len() > 0 {
        if a[0] == b[0] {
            lemma_strs_le_connected(a.drop_first(), b.drop_first());
        } else {
            lemma_chars_le_connected(a[0], b[0]);
        }
    }
}

pub proof fn lemma_strs_le_antisymmetric(a: Seq<Seq<char>>, b: Seq<Seq<char>>)
    requires
        strs_le(a, b),
        strs_le(b, a),
    ensures
        a == b,
    decreases a.len(),
{
    if a.len() == 0 {
        assert(b.len() == 0);
        assert(a =~= b);
    } else {
        assert(b.len() > 0);
        if a[0] != b[0] {
            lemma_chars_le_antisymmetric(a[0], b[0]);
        }
        assert(a[0] == b[0]);
        lemma_strs_le_antisymmetric(a.drop_first(), b.drop_first());
        assert(a.len() == b.len());
        assert forall|i: int| 0 <= i < a.len() implies a[i] == b[i] by {
            if i > 0 {
                assert(a.drop_first()[i - 1] == b.drop_first()[i - 1]);
            }
        }
        assert(a =~= b);
    }
}

pub proof fn lemma_strs_le_transitive(a: Seq<Seq<char>>, b: Seq<Seq<char>>, c: Seq<Seq<char>>)
    requires
        strs_le(a, b),
        strs_le(b, c),
    ensures
        strs_le(a, c),
    decreases a.len(),
{
    if a.len() > 0 {
        assert(b.len() > 0);
        assert(c.len() > 0);
        if a[0] == b[0] && b[0] == c[0] {
            lemma_strs_le_transitive(a.drop_first(), b.drop_first(), c.drop_first());
        } else if a[0] == b[0] {
            // a[0] == b[0] != c[0]: chars_le(b0, c0) decides
        } else if b[0] == c[0] {
        } else {
            if a[0] == c[0] {
                // then chars_le(a0,b0) and chars_le(b0,a0): b0 == a0, contradiction
                lemma_chars_le_antisymmetric(a[0], b[0]);
            } else {
                lemma_chars_le_transitive(a[0], b[0], c[0]);
            }
        }
    }
}

/// The sort rank of a record kind: discovery, then MAC, then port, then OS.
pub open spec fn tag_of(r: RecordView) -> int {
    match r {
        RecordView::Ping { .. } => 0,
        RecordView::Mac { .. } => 1,
        RecordView::Port { .. } => 2,
        RecordView::OsGuess { .. } => 3,
    }
}

pub open spec fn ping_rank(s: PingState) -> int {
    match s {
        PingState::Up => 0,
        PingState::Down => 1,
        PingState::Error => 2,
    }
}

pub open spec fn port_rank(s: PortState) -> int {
    match s {
        PortState::Open => 0,
        PortState::Closed => 1,
        PortState::Filtered => 2,
        PortState::OpenOrFiltered => 3,
        PortState::Unfiltered => 4,
        PortState::Unreachable => 5,
        PortState::ClosedOrFiltered => 6,
        PortState::Error => 7,
        PortState::Offline => 8,
    }
}

/// Strict order on addresses, as a helper for the chains below.
pub open spec fn ip_lt(a: IpAddress, b: IpAddress) -> bool {
    a != b && ip_le(a, b)
}

/// The total content order on records: kind, then address, then port, then
/// every remaining field.
pub open spec fn record_le(a: RecordView, b: RecordView) -> bool {
    if tag_of(a) != tag_of(b) {
        tag_of(a) < tag_of(b)
    } else {
        match (a, b) {
            (
                RecordView::Ping { addr: aa, status: sa, cost_ms: ca },
                RecordView::Ping { addr: ab, status: sb, cost_ms: cb },
            ) => {
                if aa != ab {
                    ip_le(aa, ab)
                } else if sa != sb {
                    ping_rank(sa) < ping_rank(sb)
                } else {
                    ca <= cb
                }
            },
            (
                RecordView::Mac { addr: aa, mac: ma, ouis: oa, cost_ms: ca },
                RecordView::Mac { addr: ab, mac: mb, ouis: ob, cost_ms: cb },
            ) => {
                if aa != ab {
                    ip_le(aa, ab)
                } else if ma != mb {
                    opt_chars_le(ma, mb)
                } else if oa != ob {
                    chars_le(oa, ob)
                } else {
                    ca <= cb
                }
            },
            (
                RecordView::Port { addr: aa, port: pa, status: sa, cost_ms: ca },
                RecordView::Port { addr: ab, port: pb, status: sb, cost_ms: cb },
            ) => {
                if aa != ab {
                    ip_le(aa, ab)
                } else if pa != pb {
                    pa < pb
                } else if sa != sb {
                    port_rank(sa) < port_rank(sb)
                } else {
                    ca <= cb
                }
            },
            (
                RecordView::OsGuess { addr: aa, names: na, cpes: pa, cost_ms: ca },
                RecordView::OsGuess { addr: ab, names: nb, cpes: pb, cost_ms: cb },
            ) => {
                if aa != ab {
                    ip_le(aa, ab)
                } else if na != nb {
                    strs_le(na, nb)
                } else if pa != pb {
                    strs_le(pa, pb)
                } else {
                    ca <= cb
                }
            },
            _ => true,
        }
    }
}

/// `record_le` is a total order, so a sorted record batch is determined by
/// its multiset of records alone.
pub proof fn lemma_record_le_total_ordering()
    ensures
        vstd::relations::total_ordering(|a: RecordView, b: RecordView| record_le(a, b)),
{
    let le = |a: RecordView, b: RecordView| record_le(a, b);
    assert forall|x: RecordView| #[trigger] le(x, x) by {
        lemma_record_le_reflexive(x);
    }
    assert forall|x: RecordView, y: RecordView| #[trigger] le(x, y) && #[trigger] le(y, x)
        implies x == y by {
        lemma_record_le_antisymmetric(x, y);
    }
    assert forall|x: RecordView, y: RecordView, z: RecordView|
        #[trigger] le(x, y) && #[trigger] le(y, z) implies le(x, z) by {
        lemma_record_le_transitive(x, y, z);
    }
    assert forall|x: RecordView, y: RecordView| #[trigger] le(x, y) || #[trigger] le(y, x) by {
        lemma_record_le_connected(x, y);
    }
}

proof fn lemma_record_le_reflexive(x: RecordView)
    ensures
        record_le(x, x),
{
    match x {
        RecordView::Ping { .. } => {},
        RecordView::Mac { .. } => {},
        RecordView::Port { .. } => {},
        RecordView::OsGuess { .. } => {},
    }
}

proof fn lemma_record_le_connected(x: RecordView, y: RecordView)
    ensures
        record_le(x, y) || record_le(y, x),
{
    if tag_of(x) == tag_of(y) {
        match (x, y) {
            (RecordView::Mac { mac: ma, ouis: oa, .. }, RecordView::Mac { mac: mb, ouis: ob, .. }) => {
                match (ma, mb) {
                    (Some(sa), Some(sb)) => {
                        lemma_chars_le_connected(sa, sb);
                    },
                    _ => {},
                }
                lemma_chars_le_connected(oa, ob);
            },
            (
                RecordView::OsGuess { names: na, cpes: pa, .. },
                RecordView::OsGuess { names: nb, cpes: pb, .. },
            ) => {
                lemma_strs_le_connected(na, nb);
                lemma_strs_le_connected(pa, pb);
            },
            _ => {},
        }
    }
}

proof fn lemma_record_le_antisymmetric(x: RecordView, y: RecordView)
    requires
        record_le(x, y),
        record_le(y, x),
    ensures
        x == y,
{
    match (x, y) {
        (RecordView::Mac { mac: ma, ouis: oa, .. }, RecordView::Mac { mac: mb, ouis: ob, .. }) => {
            if ma != mb {
                match (ma, mb) {
                    (Some(sa), Some(sb)) => {
                        lemma_chars_le_antisymmetric(sa, sb);
                    },
                    _ => {},
                }
            }
            if oa != ob {
                lemma_chars_le_antisymmetric(oa, ob);
            }
        },
        (
            RecordView::OsGuess { names: na, cpes: pa, .. },
            RecordView::OsGuess { names: nb, cpes: pb, .. },
        ) => {
            if na != nb {
                lemma_strs_le_antisymmetric(na, nb);
            }
            if pa != pb {
                lemma_strs_le_antisymmetric(pa, pb);
            }
        },
        _ => {},
    }
}

proof fn lemma_record_le_transitive(x: RecordView, y: RecordView, z: RecordView)
    requires
        record_le(x, y),
        record_le(y, z),
    ensures
        record_le(x, z),
{
    if tag_of(x) == tag_of(y) && tag_of(y) == tag_of(z) {
        match (x, y, z) {
            (
                RecordView::Mac { addr: aa, mac: ma, ouis: oa, cost_ms: ca },
                RecordView::Mac { addr: ab, mac: mb, ouis: ob, cost_ms: cb },
                RecordView::Mac { addr: ac, mac: mc, ouis: oc, cost_ms: cc },
            ) => {
                if aa == ab && ab == ac {
                    match (ma, mb, mc) {
                        (Some(sa), Some(sb), Some(sc)) => {
                            if sa == sb && sb == sc {
                            } else if sa == sb || sb == sc {
                            } else if sa == sc {
                                lemma_chars_le_antisymmetric(sa, sb);
                            } else {
                                lemma_chars_le_transitive(sa, sb, sc);
                            }
                        },
                        _ => {},
                    }
                    if ma == mb && mb == mc {
                        if oa == ob && ob == oc {
                        } else if oa == ob || ob == oc {
                        } else if oa == oc {
                            lemma_chars_le_antisymmetric(oa, ob);
                        } else {
                            lemma_chars_le_transitive(oa, ob, oc);
                        }
                    }
                }
            },
            (
                RecordView::OsGuess { addr: aa, names: na, cpes: pa, cost_ms: ca },
                RecordView::OsGuess { addr: ab, names: nb, cpes: pb, cost_ms: cb },
                RecordView::OsGuess { addr: ac, names: nc, cpes: pc, cost_ms: cc },
            ) => {
                if aa == ab && ab == ac {
                    if na == nb && nb == nc {
                    } else if na == nb || nb == nc {
                    } else if na == nc {
                        lemma_strs_le_antisymmetric(na, nb);
                    } else {
                        lemma_strs_le_transitive(na, nb, nc);
                    }
                    if na == nb && nb == nc {
                        if pa == pb && pb == pc {
                        } else if pa == pb || pb == pc {
                        } else if pa == pc {
                            lemma_strs_le_antisymmetric(pa, pb);
                        } else {
                            lemma_strs_le_transitive(pa, pb, pc);
                        }
                    }
                }
            },
            _ => {},
        }
    }
}

/// With equal prefixes of length `i`, the order is decided by the suffixes.
proof fn lemma_chars_le_skip(a: Seq<char>, b: Seq<char>, i: int)
    requires
        0 <= i <= a.len(),
        i <= b.len(),
        forall|j: int| 0 <= j < i ==> a[j] == b[j],
    ensures
        chars_le(a, b) == chars_le(a.skip(i), b.skip(i)),
    decreases i,
{
    if i > 0 {
        assert(a[0] == b[0]);
        lemma_chars_le_skip(a.drop_first(), b.drop_first(), i - 1);
        assert(forall|j: int|
            0 <= j < i - 1 ==> #[trigger] a.drop_first()[j] == b.drop_first()[j]);
        assert(a.drop_first().skip(i - 1) =~= a.skip(i));
        assert(b.drop_first().skip(i - 1) =~= b.skip(i));
    } else {
        assert(a.skip(0) =~= a);
        assert(b.skip(0) =~= b);
    }
}

proof fn lemma_strs_le_skip(a: Seq<Seq<char>>, b: Seq<Seq<char>>, i: int)
    requires
        0 <= i <= a.len(),
        i <= b.len(),
        forall|j: int| 0 <= j < i ==> a[j] == b[j],
    ensures
        strs_le(a, b) == strs_le(a.skip(i), b.skip(i)),
    decreases i,
{
    if i > 0 {
        assert(a[0] == b[0]);
        lemma_strs_le_skip(a.drop_first(), b.drop_first(), i - 1);
        assert(forall|j: int|
            0 <= j < i - 1 ==> #[trigger] a.drop_first()[j] == b.drop_first()[j]);
        assert(a.drop_first().skip(i - 1) =~= a.skip(i));
        assert(b.drop_first().skip(i - 1) =~= b.skip(i));
    } else {
        assert(a.skip(0) =~= a);
        assert(b.skip(0) =~= b);
    }
}

/// Lexicographic comparison of two strings by code point.
pub fn str_le_exec(a: &str, b: &str) -> (r: bool)
    ensures
        r == chars_le(a@, b@),
{
    let na = a.unicode_len();
    let nb = b.unicode_len();
    let min = if na < nb {
        na
    } else {
        nb
    };
    let mut i: usize = 0;
    while i < min
        invariant
            0 <= i <= min,
            min <= a@.len(),
            min <= b@.len(),
            na == a@.len(),
            nb == b@.len(),
            min == if na < nb { na as int } else { nb as int },
            forall|j: int| 0 <= j < i ==> a@[j] == b@[j],
        decreases min - i,
    {
        let ca = a.get_char(i);
        let cb = b.get_char(i);
        if ca != cb {
            proof {
                lemma_chars_le_skip(a@, b@, i as int);
                assert(a@.skip(i as int)[0] == a@[i as int]);
                assert(b@.skip(i as int)[0] == b@[i as int]);
            }
            return (ca as u32) < (cb as u32);
        }
        i = i + 1;
    }
    proof {
        lemma_chars_le_skip(a@, b@, min as int);
        if na <= nb {
            assert(a@.skip(min as int) =~= Seq::<char>::empty());
        } else {
            assert(b@.skip(min as int) =~= Seq::<char>::empty());
            assert(a@.skip(min as int).len() > 0);
        }
    }
    na <= nb
}

/// Lexicographic comparison of two string lists.
pub fn strs_le_exec(a: &Vec<String>, b: &Vec<String>) -> (r: bool)
    ensures
        r == strs_le(crate::strings::seq_views(a@), crate::strings::seq_views(b@)),
{
    let ghost av = crate::strings::seq_views(a@);
    let ghost bv = crate::strings::seq_views(b@);
    let na = a.len();
    let nb = b.len();
    let min = if na < nb {
        na
    } else {
        nb
    };
    let mut i: usize = 0;
    while i < min
        invariant
            0 <= i <= min,
            av == crate::strings::seq_views(a@),
            bv == crate::strings::seq_views(b@),
            na == a@.len(),
            nb == b@.len(),
            min == if na < nb { na as int } else { nb as int },
            forall|j: int| 0 <= j < i ==> av[j] == bv[j],
        decreases min - i,
    {
        proof {
            assert(av[i as int] == a@[i as int]@);
            assert(bv[i as int] == b@[i as int]@);
        }
        if !(*(&a[i]) == *(&b[i])) {
            proof {
                lemma_strs_le_skip(av, bv, i as int);
                assert(av.skip(i as int)[0] == av[i as int]);
                assert(bv.skip(i as int)[0] == bv[i as int]);
            }
            return str_le_exec(a[i].as_str(), b[i].as_str());
        }
        i = i + 1;
    }
    proof {
        lemma_strs_le_skip(av, bv, min as int);
        if na <= nb {
            assert(av.skip(min as int) =~= Seq::<Seq<char>>::empty());
        } else {
            assert(bv.skip(min as int) =~= Seq::<Seq<char>>::empty());
            assert(av.skip(min as int).len() > 0);
        }
    }
    na <= nb
}

/// Whether two string lists hold the same text.
fn strs_eq_exec(a: &Vec<String>, b: &Vec<String>) -> (r: bool)
    ensures
        r == (crate::strings::seq_views(a@) == crate::strings::seq_views(b@)),
{
    let ghost av = crate::strings::seq_views(a@);
    let ghost bv = crate::strings::seq_views(b@);
    if a.len() != b.len() {
        proof {
            assert(av.len() != bv.len());
        }
        return false;
    }
    let mut i: usize = 0;
    while i < a.len()
        invariant
            0 <= i <= a@.len(),
            a@.len() == b@.len(),
            av == crate::strings::seq_views(a@),
            bv == crate::strings::seq_views(b@),
            forall|j: int| 0 <= j < i ==> av[j] == bv[j],
        decreases a@.len() - i,
    {
        proof {
            assert(av[i as int] == a@[i as int]@);
            assert(bv[i as int] == b@[i as int]@);
        }
        if !(*(&a[i]) == *(&b[i])) {
            return false;
        }
        i = i + 1;
    }
    proof {
        assert(av =~= bv);
    }
    true
}

fn opt_str_le_exec(a: &Option<String>, b: &Option<String>) -> (r: bool)
    ensures
        r == opt_chars_le(
            match a {
                Some(x) => Some(x@),
                None => None,
            },
            match b {
                Some(y) => Some(y@),
                None => None,
            },
        ),
{
    match (a, b) {
        (None, _) => true,
        (Some(_), None) => false,
        (Some(x), Some(y)) => str_le_exec(x.as_str(), y.as_str()),
    }
}

fn tag_exec(r: &ResultRecord) -> (t: u8)
    ensures
        t as int == tag_of(r@),
{
    match r {
        ResultRecord::Ping { .. } => 0,
        ResultRecord::Mac { .. } => 1,
        ResultRecord::Port { .. } => 2,
        ResultRecord::OsGuess { .. } => 3,
    }
}

fn ping_rank_exec(s: PingState) -> (t: u8)
    ensures
        t as int == ping_rank(s),
{
    match s {
        PingState::Up => 0,
        PingState::Down => 1,
        PingState::Error => 2,
    }
}

fn port_rank_exec(s: PortState) -> (t: u8)
    ensures
        t as int == port_rank(s),
{
    match s {
        PortState::Open => 0,
        PortState::Closed => 1,
        PortState::Filtered => 2,
        PortState::OpenOrFiltered => 3,
        PortState::Unfiltered => 4,
        PortState::Unreachable => 5,
        PortState::ClosedOrFiltered => 6,
        PortState::Error => 7,
        PortState::Offline => 8,
    }
}

fn opt_str_eq(a: &Option<String>, b: &Option<String>) -> (r: bool)
    ensures
        r == (match a {
            Some(x) => Some(x@),
            None => None::<Seq<char>>,
        } == match b {
            Some(y) => Some(y@),
            None => None::<Seq<char>>,
        }),
{
    match (a, b) {
        (None, None) => true,
        (Some(x), Some(y)) => *x == *y,
        _ => false,
    }
}

/// Decides the total content order on two records.
pub fn record_le_exec(a: &ResultRecord, b: &ResultRecord) -> (r: bool)
    ensures
        r == record_le(a@, b@),
{
    let ta = tag_exec(a);
    let tb = tag_exec(b);
    if ta != tb {
        return ta < tb;
    }
    match (a, b) {
        (
            ResultRecord::Ping { addr: aa, status: sa, cost_ms: ca },
            ResultRecord::Ping { addr: ab, status: sb, cost_ms: cb },
        ) => {
            if !(*aa == *ab) {
                ip_le_exec(aa, ab)
            } else if !(*sa == *sb) {
                ping_rank_exec(*sa) < ping_rank_exec(*sb)
            } else {
                *ca <= *cb
            }
        },
        (
            ResultRecord::Mac { addr: aa, mac: ma, ouis: oa, cost_ms: ca },
            ResultRecord::Mac { addr: ab, mac: mb, ouis: ob, cost_ms: cb },
        ) => {
            if !(*aa == *ab) {
                ip_le_exec(aa, ab)
            } else if !opt_str_eq(ma, mb) {
                opt_str_le_exec(ma, mb)
            } else if !(*oa == *ob) {
                str_le_exec(oa.as_str(), ob.as_str())
            } else {
                *ca <= *cb
            }
        },
        (
            ResultRecord::Port { addr: aa, port: pa, status: sa, cost_ms: ca },
            ResultRecord::Port { addr: ab, port: pb, status: sb, cost_ms: cb },
        ) => {
            if !(*aa == *ab) {
                ip_le_exec(aa, ab)
            } else if !(*pa == *pb) {
                *pa < *pb
            } else if !(*sa == *sb) {
                port_rank_exec(*sa) < port_rank_exec(*sb)
            } else {
                *ca <= *cb
            }
        },
        (
            ResultRecord::OsGuess { addr: aa, names: na, cpes: pa, cost_ms: ca },
            ResultRecord::OsGuess { addr: ab, names: nb, cpes: pb, cost_ms: cb },
        ) => {
            if !(*aa == *ab) {
                ip_le_exec(aa, ab)
            } else if !strs_eq_exec(na, nb) {
                strs_le_exec(na, nb)
            } else if !strs_eq_exec(pa, pb) {
                strs_le_exec(pa, pb)
            } else {
                *ca <= *cb
            }
        },
        _ => {
            proof {
                assert(false);
            }
            true
        },
    }
}

} // verus!
