//! The target expander: one classified token plus a port set becomes the
//! concrete targets it denotes.
//!
//! Enumeration policy, stated once: a CIDR subnet expands to its full
//! declared block, network and broadcast addresses included; a range expands
//! from its start to its end inclusive, and the start must not exceed the
//! end. A domain token is resolved through the system resolver and only the
//! answers of the preferred address family are kept — an empty remainder is
//! not an error.
//!
//! The block and range walks go through `subnetwork`'s cross pools behind
//! trusted wrappers; DNS goes through `dns_lookup` behind one more.

use vstd::prelude::*;

use crate::addr::IpAddress;
use crate::addr::parse_ipv4_spec;
use crate::addr::parse_ipv6_spec;
use crate::classify::AddressKind;
use crate::classify::classify_spec;
use crate::classify::range_end_text;
use crate::classify::range_start_text;
use crate::classify::subnet_parts;
use crate::errors::ErrView;
use crate::errors::ResolveError;
use crate::strings::parse_dec_spec;
use crate::target::TargetView;
use crate::target::Target;
use crate::target::targets_view;
use crate::target::targets_with;
use crate::target::AddressFamilyPreference;
use crate::target::make_targets;
use crate::addr::parse_ipv4;
use crate::addr::parse_ipv6;
use crate::strings::parse_dec_capped;
use crate::strings::seq_views;
use crate::strings::split_char;
use crate::strings::trim_str;
use crate::tld::is_recognized_tld;
use crate::strings::lemma_split_on_len;

verus! {

/// Relies on subnetwork::CrossIpv4Pool: `new` succeeds whenever
/// `start <= end`, and iterating the pool yields every address from `start`
/// to `end` inclusive, in ascending order. The pool's iterator steps one past
/// `end`, so `end` must lie below the top address.
#[verifier::external_body]
fn enumerate_v4_range(start: u32, end: u32) -> (r: Vec<u32>)
    requires
        start <= end,
        end < 0xFFFFFFFFu32,
    ensures
        r@ == Seq::new((end - start + 1) as nat, |i: int| (start + i) as u32),
{
    let s = core::net::Ipv4Addr::from(start);
    let e = core::net::Ipv4Addr::from(end);
    let pool = subnetwork::CrossIpv4Pool::new(s, e).expect("start exceeds end");
    pool.map(|ip: core::net::Ipv4Addr| ip.to_bits()).collect()
}

/// Relies on subnetwork::CrossIpv6Pool, exactly as the IPv4 pool above.
#[verifier::external_body]
fn enumerate_v6_range(start: u128, end: u128) -> (r: Vec<u128>)
    requires
        start <= end,
        end < 0xFFFFFFFFFFFFFFFFFFFFFFFFFFFFFFFFu128,
    ensures
        r@ == Seq::new((end - start + 1) as nat, |i: int| (start + i) as u128),
{
    let s = core::net::Ipv6Addr::from(start);
    let e = core::net::Ipv6Addr::from(end);
    let pool = subnetwork::CrossIpv6Pool::new(s, e).expect("start exceeds end");
    pool.map(|ip: core::net::Ipv6Addr| ip.to_bits()).collect()
}

/// Relies on dns_lookup::lookup_host: resolves a name through the system
/// resolver to its A and AAAA records. What comes back depends on the
/// environment, so nothing is promised of the answers; `None` is a lookup
/// failure.
#[verifier::external_body]
fn dns_resolve(name: &str) -> (r: Option<Vec<IpAddress>>) {
    match dns_lookup::lookup_host(name) {
        Ok(addrs) => Some(
            addrs.map(
                |ip: core::net::IpAddr|
                    match ip {
                        core::net::IpAddr::V4(v4) => IpAddress::V4(v4.to_bits()),
                        core::net::IpAddr::V6(v6) => IpAddress::V6(v6.to_bits()),
                    },
            ).collect(),
        ),
        Err(_) => None,
    }
}

/// The netmask of an IPv4 prefix length (`0..=32`).
pub open spec fn v4_mask(p: int) -> u32 {
    (((0xFFFFFFFFu64 << ((32 - p) as u64)) & 0xFFFFFFFF) as u32)
}

fn v4_mask_exec(p: u32) -> (r: u32)
    requires
        p <= 32,
    ensures
        r == v4_mask(p as int),
{
    let sh: u64 = (32 - p) as u64;
    ((0xFFFFFFFFu64 << sh) & 0xFFFFFFFF) as u32
}

/// The netmask of an IPv6 prefix length (`0..=128`).
pub open spec fn v6_mask(p: int) -> u128 {
    if p == 0 {
        0u128
    } else {
        (0xFFFFFFFFFFFFFFFFFFFFFFFFFFFFFFFFu128 << ((128 - p) as u128))
    }
}

fn v6_mask_exec(p: u32) -> (r: u128)
    requires
        p <= 128,
    ensures
        r == v6_mask(p as int),
{
    if p == 0 {
        0u128
    } else {
        let sh: u128 = (128 - p) as u128;
        0xFFFFFFFFFFFFFFFFFFFFFFFFFFFFFFFFu128 << sh
    }
}

proof fn lemma_or_ge_u32(x: u32, y: u32)
    ensures
        x <= (x | y),
{
    assert(x <= (x | y)) by (bit_vector);
}

proof fn lemma_or_ge_u128(x: u128, y: u128)
    ensures
        x <= (x | y),
{
    assert(x <= (x | y)) by (bit_vector);
}

/// The lowest address of the block a subnet token declares.
pub open spec fn v4_subnet_base(token: Seq<char>) -> u32 {
    parse_ipv4_spec(subnet_parts(token)[0]).unwrap() & v4_mask(
        parse_dec_spec(subnet_parts(token)[1], 32).unwrap() as int,
    )
}

/// The highest address of the block a subnet token declares.
pub open spec fn v4_subnet_last(token: Seq<char>) -> u32 {
    v4_subnet_base(token) | !v4_mask(parse_dec_spec(subnet_parts(token)[1], 32).unwrap() as int)
}

pub open spec fn v6_subnet_base(token: Seq<char>) -> u128 {
    parse_ipv6_spec(subnet_parts(token)[0]).unwrap() & v6_mask(
        parse_dec_spec(subnet_parts(token)[1], 128).unwrap() as int,
    )
}

pub open spec fn v6_subnet_last(token: Seq<char>) -> u128 {
    v6_subnet_base(token) | !v6_mask(parse_dec_spec(subnet_parts(token)[1], 128).unwrap() as int)
}

/// Every IPv4 address from `start` to `end`, ascending.
pub open spec fn addr_seq_v4(start: u32, end: u32) -> Seq<IpAddress>
    recommends
        start <= end,
{
    Seq::new((end - start + 1) as nat, |i: int| IpAddress::V4((start + i) as u32))
}

/// Every IPv6 address from `start` to `end`, ascending.
pub open spec fn addr_seq_v6(start: u128, end: u128) -> Seq<IpAddress>
    recommends
        start <= end,
{
    Seq::new((end - start + 1) as nat, |i: int| IpAddress::V6((start + i) as u128))
}

fn wrap_v4(raw: Vec<u32>) -> (r: Vec<IpAddress>)
    ensures
        r@ == raw@.map_values(|v: u32| IpAddress::V4(v)),
{
    let mut out: Vec<IpAddress> = Vec::new();
    let mut i: usize = 0;
    proof {
        assert(out@ =~= raw@.map_values(|v: u32| IpAddress::V4(v)).take(0));
    }
    while i < raw.len()
        invariant
            0 <= i <= raw@.len(),
            out@ == raw@.map_values(|v: u32| IpAddress::V4(v)).take(i as int),
        decreases raw@.len() - i,
    {
        out.push(IpAddress::V4(raw[i]));
        proof {
            assert(out@ =~= raw@.map_values(|v: u32| IpAddress::V4(v)).take(i + 1int));
        }
        i = i + 1;
    }
    proof {
        assert(raw@.map_values(|v: u32| IpAddress::V4(v)).take(raw@.len() as int) =~= raw@
            .map_values(|v: u32| IpAddress::V4(v)));
    }
    out
}

fn wrap_v6(raw: Vec<u128>) -> (r: Vec<IpAddress>)
    ensures
        r@ == raw@.map_values(|v: u128| IpAddress::V6(v)),
{
    let mut out: Vec<IpAddress> = Vec::new();
    let mut i: usize = 0;
    proof {
        assert(out@ =~= raw@.map_values(|v: u128| IpAddress::V6(v)).take(0));
    }
    while i < raw.len()
        invariant
            0 <= i <= raw@.len(),
            out@ == raw@.map_values(|v: u128| IpAddress::V6(v)).take(i as int),
        decreases raw@.len() - i,
    {
        out.push(IpAddress::V6(raw[i]));
        proof {
            assert(out@ =~= raw@.map_values(|v: u128| IpAddress::V6(v)).take(i + 1int));
        }
        i = i + 1;
    }
    proof {
        assert(raw@.map_values(|v: u128| IpAddress::V6(v)).take(raw@.len() as int) =~= raw@
            .map_values(|v: u128| IpAddress::V6(v)));
    }
    out
}

/// Walks an IPv4 range, handling a range that ends at the top address (which
/// the pool's iterator cannot yield) by appending it separately.
fn v4_range_addresses(start: u32, end: u32) -> (r: Vec<IpAddress>)
    requires
        start <= end,
    ensures
        r@ == addr_seq_v4(start, end),
{
    if end < 0xFFFFFFFFu32 {
        let out = wrap_v4(enumerate_v4_range(start, end));
        proof {
            assert(out@ =~= addr_seq_v4(start, end));
        }
        out
    } else if start < end {
        let mut out = wrap_v4(enumerate_v4_range(start, end - 1));
        out.push(IpAddress::V4(end));
        proof {
            assert(out@ =~= addr_seq_v4(start, end));
        }
        out
    } else {
        let mut out: Vec<IpAddress> = Vec::new();
        out.push(IpAddress::V4(end));
        proof {
            assert(out@ =~= addr_seq_v4(start, end));
        }
        out
    }
}

fn v6_range_addresses(start: u128, end: u128) -> (r: Vec<IpAddress>)
    requires
        start <= end,
    ensures
        r@ == addr_seq_v6(start, end),
{
    if end < 0xFFFFFFFFFFFFFFFFFFFFFFFFFFFFFFFFu128 {
        let out = wrap_v6(enumerate_v6_range(start, end));
        proof {
            assert(out@ =~= addr_seq_v6(start, end));
        }
        out
    } else if start < end {
        let mut out = wrap_v6(enumerate_v6_range(start, end - 1));
        out.push(IpAddress::V6(end));
        proof {
            assert(out@ =~= addr_seq_v6(start, end));
        }
        out
    } else {
        let mut out: Vec<IpAddress> = Vec::new();
        out.push(IpAddress::V6(end));
        proof {
            assert(out@ =~= addr_seq_v6(start, end));
        }
        out
    }
}

/// Whether an address is of the preferred family.
pub open spec fn keeps_family(pref: AddressFamilyPreference, a: IpAddress) -> bool {
    match pref {
        AddressFamilyPreference::Ipv4First => a is V4,
        AddressFamilyPreference::Ipv6First => a is V6,
    }
}

/// The answers of the preferred family, in answer order.
pub open spec fn filter_family(answers: Seq<IpAddress>, pref: AddressFamilyPreference) -> Seq<
    IpAddress,
> {
    answers.filter(|a: IpAddress| keeps_family(pref, a))
}

/// Keeps the answers of the preferred family, in order.
pub fn filter_by_family(answers: &Vec<IpAddress>, pref: AddressFamilyPreference) -> (r: Vec<
    IpAddress,
>)
    ensures
        r@ == filter_family(answers@, pref),
{
    let ghost keep = |a: IpAddress| keeps_family(pref, a);
    let mut out: Vec<IpAddress> = Vec::new();
    let mut i: usize = 0;
    proof {
        assert(answers@.take(0) =~= Seq::<IpAddress>::empty());
        assert(out@ =~= answers@.take(0).filter(keep));
    }
    while i < answers.len()
        invariant
            0 <= i <= answers@.len(),
            keep == (|a: IpAddress| keeps_family(pref, a)),
            out@ == answers@.take(i as int).filter(keep),
        decreases answers@.len() - i,
    {
        proof {
            assert(answers@.take(i + 1int).drop_last() =~= answers@.take(i as int));
            assert(answers@.take(i + 1int).last() == answers@[i as int]);
            reveal(Seq::filter);
        }
        let a = answers[i];
        let wanted = match pref {
            AddressFamilyPreference::Ipv4First => a.is_ipv4(),
            AddressFamilyPreference::Ipv6First => !a.is_ipv4(),
        };
        if wanted {
            out.push(a);
        }
        proof {
            assert(out@ =~= answers@.take(i + 1int).filter(keep));
        }
        i = i + 1;
    }
    proof {
        assert(answers@.take(answers@.len() as int) =~= answers@);
    }
    out
}

/// The targets a domain token yields from a given answer set: the answers of
/// the preferred family, each as a target tagged with the token.
pub open spec fn domain_targets(
    token: Seq<char>,
    ports: Seq<u16>,
    pref: AddressFamilyPreference,
    answers: Seq<IpAddress>,
) -> Seq<TargetView> {
    targets_with(filter_family(answers, pref), ports, Some(token))
}

/// What a non-domain token expands to: its targets, or the error naming it.
pub open spec fn fixed_expansion(token: Seq<char>, ports: Seq<u16>) -> Result<
    Seq<TargetView>,
    ErrView,
> {
    match classify_spec(token) {
        Some(AddressKind::Ipv4Literal) => Ok(
            targets_with(
                seq![IpAddress::V4(parse_ipv4_spec(token).unwrap())],
                ports,
                None::<Seq<char>>,
            ),
        ),
        Some(AddressKind::Ipv6Literal) => Ok(
            targets_with(
                seq![IpAddress::V6(parse_ipv6_spec(token).unwrap())],
                ports,
                None::<Seq<char>>,
            ),
        ),
        Some(AddressKind::Ipv4Subnet) => Ok(
            targets_with(
                addr_seq_v4(v4_subnet_base(token), v4_subnet_last(token)),
                ports,
                Some(token),
            ),
        ),
        Some(AddressKind::Ipv6Subnet) => Ok(
            targets_with(
                addr_seq_v6(v6_subnet_base(token), v6_subnet_last(token)),
                ports,
                Some(token),
            ),
        ),
        Some(AddressKind::Ipv4Range) => {
            let s = parse_ipv4_spec(range_start_text(token)).unwrap();
            let e = parse_ipv4_spec(range_end_text(token)).unwrap();
            if s <= e {
                Ok(targets_with(addr_seq_v4(s, e), ports, Some(token)))
            } else {
                Err(ErrView::RangeOrder(token))
            }
        },
        Some(AddressKind::Ipv6Range) => {
            let s = parse_ipv6_spec(range_start_text(token)).unwrap();
            let e = parse_ipv6_spec(range_end_text(token)).unwrap();
            if s <= e {
                Ok(targets_with(addr_seq_v6(s, e), ports, Some(token)))
            } else {
                Err(ErrView::RangeOrder(token))
            }
        },
        _ => Err(ErrView::AddressClassification(token)),
    }
}

/// The view of an executable expansion result.
pub open spec fn expand_result_view(r: Result<Vec<Target>, ResolveError>) -> Result<
    Seq<TargetView>,
    ErrView,
> {
    match r {
        Ok(v) => Ok(targets_view(v@)),
        Err(e) => Err(e@),
    }
}

/// Expands one token into targets.
///
/// A literal yields one target with no origin; a subnet its full block and a
/// range its inclusive span, each target tagged with the token; a domain
/// yields the resolved answers of the preferred family, also tagged. A
/// reversed range is a range-order error; an unclassifiable token a
/// classification error; a failed lookup a DNS error.
pub fn expand(token: &str, ports: &Vec<u16>, pref: AddressFamilyPreference) -> (r: Result<
    Vec<Target>,
    ResolveError,
>)
    ensures
        match classify_spec(token@) {
            None => r matches Err(e) && e@ == ErrView::AddressClassification(token@),
            Some(AddressKind::Domain) => match r {
                Ok(v) => exists|answers: Seq<IpAddress>|
                    targets_view(v@) == domain_targets(token@, ports@, pref, answers),
                Err(e) => e@ == ErrView::Dns(token@),
            },
            Some(_) => expand_result_view(r) == fixed_expansion(token@, ports@),
        },
{
    let no_origin: Option<String> = None;
    if let Some(v) = parse_ipv4(token) {
        let mut one: Vec<IpAddress> = Vec::new();
        one.push(IpAddress::V4(v));
        proof {
            assert(one@ =~= seq![IpAddress::V4(parse_ipv4_spec(token@).unwrap())]);
        }
        return Ok(make_targets(&one, ports, &no_origin));
    }
    if let Some(v) = parse_ipv6(token) {
        let mut one: Vec<IpAddress> = Vec::new();
        one.push(IpAddress::V6(v));
        proof {
            assert(one@ =~= seq![IpAddress::V6(parse_ipv6_spec(token@).unwrap())]);
        }
        return Ok(make_targets(&one, ports, &no_origin));
    }
    let origin: Option<String> = Some(String::from_str(token));
    let sparts = split_char(token, '/');
    proof {
        assert(seq_views(sparts@).len() == sparts@.len());
    }
    if sparts.len() == 2 {
        proof {
            assert(seq_views(sparts@)[0] == sparts@[0]@);
            assert(seq_views(sparts@)[1] == sparts@[1]@);
        }
        if let Some(a) = parse_ipv4(sparts[0].as_str()) {
            if let Some(p) = parse_dec_capped(sparts[1].as_str(), 32) {
                let mask = v4_mask_exec(p);
                let base = a & mask;
                let last = base | !mask;
                proof {
                    lemma_or_ge_u32(base, !mask);
                    assert(base == v4_subnet_base(token@));
                    assert(last == v4_subnet_last(token@));
                }
                let addrs = v4_range_addresses(base, last);
                return Ok(make_targets(&addrs, ports, &origin));
            }
        }
        if let Some(a) = parse_ipv6(sparts[0].as_str()) {
            if let Some(p) = parse_dec_capped(sparts[1].as_str(), 128) {
                let mask = v6_mask_exec(p);
                let base = a & mask;
                let last = base | !mask;
                proof {
                    lemma_or_ge_u128(base, !mask);
                    assert(base == v6_subnet_base(token@));
                    assert(last == v6_subnet_last(token@));
                }
                let addrs = v6_range_addresses(base, last);
                return Ok(make_targets(&addrs, ports, &origin));
            }
        }
    }
    let rparts = split_char(token, '-');
    proof {
        assert(seq_views(rparts@).len() == rparts@.len());
    }
    if rparts.len() == 2 {
        proof {
            assert(seq_views(rparts@)[0] == rparts@[0]@);
            assert(seq_views(rparts@)[1] == rparts@[1]@);
        }
        let start_text = trim_str(rparts[0].as_str());
        let end_text = trim_str(rparts[1].as_str());
        if let Some(s) = parse_ipv4(start_text.as_str()) {
            if let Some(e) = parse_ipv4(end_text.as_str()) {
                if s <= e {
                    let addrs = v4_range_addresses(s, e);
                    return Ok(make_targets(&addrs, ports, &origin));
                } else {
                    return Err(ResolveError::RangeOrder(String::from_str(token)));
                }
            }
        }
        if let Some(s) = parse_ipv6(start_text.as_str()) {
            if let Some(e) = parse_ipv6(end_text.as_str()) {
                if s <= e {
                    let addrs = v6_range_addresses(s, e);
                    return Ok(make_targets(&addrs, ports, &origin));
                } else {
                    return Err(ResolveError::RangeOrder(String::from_str(token)));
                }
            }
        }
    }
    let dparts = split_char(token, '.');
    proof {
        lemma_split_on_len(token@, '.');
        assert(seq_views(dparts@).len() == dparts@.len());
        assert(seq_views(dparts@)[dparts@.len() - 1] == dparts@[dparts@.len() - 1]@);
    }
    let last_label = trim_str(dparts[dparts.len() - 1].as_str());
    if is_recognized_tld(last_label.as_str()) {
        match dns_resolve(token) {
            Some(answers) => {
                let kept = filter_by_family(&answers, pref);
                let made = make_targets(&kept, ports, &origin);
                proof {
                    assert(targets_view(made@) == domain_targets(token@, ports@, pref, answers@));
                }
                return Ok(made);
            },
            None => {
                return Err(ResolveError::Dns(String::from_str(token)));
            },
        }
    }
    Err(ResolveError::AddressClassification(String::from_str(token)))
}

/// An IPv4 literal classifies as a literal and expands to exactly one
/// target carrying that address, the given ports and no origin.
pub proof fn lemma_ipv4_literal_expansion(token: Seq<char>, ports: Seq<u16>)
    requires
        parse_ipv4_spec(token) is Some,
    ensures
        classify_spec(token) == Some(AddressKind::Ipv4Literal),
        fixed_expansion(token, ports) == Ok::<Seq<TargetView>, ErrView>(
            seq![
                TargetView {
                    address: IpAddress::V4(parse_ipv4_spec(token).unwrap()),
                    ports: ports,
                    origin: None,
                },
            ],
        ),
{
    assert(targets_with(
        seq![IpAddress::V4(parse_ipv4_spec(token).unwrap())],
        ports,
        None::<Seq<char>>,
    ) =~= seq![
        TargetView {
            address: IpAddress::V4(parse_ipv4_spec(token).unwrap()),
            ports: ports,
            origin: None,
        },
    ]);
}

/// The family filter keeps exactly the answers of the preferred family, so
/// flipping the preference keeps exactly the other answers: the two keeps
/// partition the answer set.
pub proof fn lemma_preference_flip(answers: Seq<IpAddress>)
    ensures
        forall|a: IpAddress|
            filter_family(answers, AddressFamilyPreference::Ipv4First).contains(a) <==> (
            answers.contains(a) && a is V4),
        forall|a: IpAddress|
            filter_family(answers, AddressFamilyPreference::Ipv6First).contains(a) <==> (
            answers.contains(a) && a is V6),
        filter_family(answers, AddressFamilyPreference::Ipv4First).len() + filter_family(
            answers,
            AddressFamilyPreference::Ipv6First,
        ).len() == answers.len(),
{
    lemma_family_partition(answers, AddressFamilyPreference::Ipv4First);
    lemma_family_partition(answers, AddressFamilyPreference::Ipv6First);
    lemma_family_lengths(answers);
}

proof fn lemma_family_partition(answers: Seq<IpAddress>, pref: AddressFamilyPreference)
    ensures
        forall|a: IpAddress|
            filter_family(answers, pref).contains(a) <==> (answers.contains(a) && keeps_family(
                pref,
                a,
            )),
    decreases answers.len(),
{
    reveal(Seq::filter);
    let keep = |a: IpAddress| keeps_family(pref, a);
    if answers.len() == 0 {
    } else {
        lemma_family_partition(answers.drop_last(), pref);
        let l = answers.last();
        assert forall|a: IpAddress|
            filter_family(answers, pref).contains(a) <==> (answers.contains(a) && keeps_family(
                pref,
                a,
            )) by {
            let prev = answers.drop_last().filter(keep);
            if filter_family(answers, pref).contains(a) {
                let i = choose|i: int|
                    0 <= i < filter_family(answers, pref).len() && filter_family(answers, pref)[i]
                        == a;
                if keep(l) && i == prev.len() {
                    assert(a == l);
                    assert(answers[answers.len() - 1] == a);
                } else {
                    assert(prev[i] == a);
                    assert(answers.drop_last().contains(a));
                    let j = choose|j: int|
                        0 <= j < answers.drop_last().len() && answers.drop_last()[j] == a;
                    assert(answers[j] == a);
                }
            }
            if answers.contains(a) && keeps_family(pref, a) {
                let i = choose|i: int| 0 <= i < answers.len() && answers[i] == a;
                if i < answers.len() - 1 {
                    assert(answers.drop_last()[i] == a);
                    assert(prev.contains(a));
                    let j = choose|j: int| 0 <= j < prev.len() && prev[j] == a;
                    if keep(l) {
                        assert(prev.push(l)[j] == a);
                    }
                } else {
                    assert(a == l);
                    if keep(l) {
                        assert(prev.push(l)[prev.len() as int] == a);
                    }
                }
            }
        }
    }
}

proof fn lemma_family_lengths(answers: Seq<IpAddress>)
    ensures
        filter_family(answers, AddressFamilyPreference::Ipv4First).len() + filter_family(
            answers,
            AddressFamilyPreference::Ipv6First,
        ).len() == answers.len(),
    decreases answers.len(),
{
    reveal(Seq::filter);
    if answers.len() > 0 {
        lemma_family_lengths(answers.drop_last());
    }
}

/// Whatever answer set a lookup produced, a domain token's targets all carry
/// the preferred address family, each answer of that family appears, and
/// every target is tagged with the token.
pub proof fn lemma_domain_targets_family(
    token: Seq<char>,
    ports: Seq<u16>,
    pref: AddressFamilyPreference,
    answers: Seq<IpAddress>,
)
    ensures
        domain_targets(token, ports, pref, answers).len() == filter_family(answers, pref).len(),
        forall|i: int|
            0 <= i < domain_targets(token, ports, pref, answers).len()
                ==> keeps_family(pref, #[trigger] domain_targets(token, ports, pref, answers)[i].address)
                && domain_targets(token, ports, pref, answers)[i].ports == ports
                && domain_targets(token, ports, pref, answers)[i].origin == Some(token),
{
    let kept = filter_family(answers, pref);
    answers.filter_lemma(|a: IpAddress| keeps_family(pref, a));
    assert forall|i: int|
        0 <= i < domain_targets(token, ports, pref, answers).len()
            implies keeps_family(pref, #[trigger] domain_targets(token, ports, pref, answers)[i].address)
            && domain_targets(token, ports, pref, answers)[i].ports == ports
            && domain_targets(token, ports, pref, answers)[i].origin == Some(token) by {
        assert(domain_targets(token, ports, pref, answers)[i].address == kept[i]);
        assert(keeps_family(pref, kept[i]));
    }
}

} // verus!
