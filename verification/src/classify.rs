//! The address-spec classifier: decides the syntactic kind of one token.
//!
//! The kinds are tried in a fixed order — IPv4 literal, IPv6 literal, CIDR
//! subnet (either family), address range (either family), then domain name by
//! the TLD registry — so classification is deterministic. A token matching
//! none of them is a fatal classification error.

use vstd::prelude::*;

use crate::addr::parse_ipv4_spec;
use crate::addr::parse_ipv6_spec;
use crate::errors::ErrView;
use crate::errors::ResolveError;
use crate::strings::split_on;
use crate::strings::trim_spec;
use crate::tld::tld_matches;
use crate::addr::parse_ipv4;
use crate::addr::parse_ipv6;
use crate::strings::lemma_split_on_len;
use crate::strings::parse_dec_capped;
use crate::strings::seq_views;
use crate::strings::split_char;
use crate::strings::trim_str;
use crate::tld::is_recognized_tld;

verus! {

/// The syntactic kind of one address token.
#[derive(Debug, Clone, Copy, PartialEq, Eq, Structural)]
pub enum AddressKind {
    Ipv4Literal,
    Ipv6Literal,
    Ipv4Subnet,
    Ipv6Subnet,
    Ipv4Range,
    Ipv6Range,
    Domain,
}

/// The two sides of a CIDR token (`addr/prefix`), when it has exactly one `/`.
pub open spec fn subnet_parts(s: Seq<char>) -> Seq<Seq<char>> {
    split_on(s, '/')
}

/// `addr/prefix` with an IPv4 literal and a decimal prefix length `0..=32`.
pub open spec fn is_v4_subnet(s: Seq<char>) -> bool {
    let parts = subnet_parts(s);
    parts.len() == 2 && parse_ipv4_spec(parts[0]) is Some && crate::strings::parse_dec_spec(
        parts[1],
        32,
    ) is Some
}

/// `addr/prefix` with an IPv6 literal and a decimal prefix length `0..=128`.
pub open spec fn is_v6_subnet(s: Seq<char>) -> bool {
    let parts = subnet_parts(s);
    parts.len() == 2 && parse_ipv6_spec(parts[0]) is Some && crate::strings::parse_dec_spec(
        parts[1],
        128,
    ) is Some
}

/// The two sides of a range token (`start-end`), when it has exactly one `-`;
/// each side is read with surrounding whitespace ignored.
pub open spec fn range_parts(s: Seq<char>) -> Seq<Seq<char>> {
    split_on(s, '-')
}

pub open spec fn range_start_text(s: Seq<char>) -> Seq<char> {
    trim_spec(range_parts(s)[0])
}

pub open spec fn range_end_text(s: Seq<char>) -> Seq<char> {
    trim_spec(range_parts(s)[1])
}

pub open spec fn is_v4_range(s: Seq<char>) -> bool {
    range_parts(s).len() == 2 && parse_ipv4_spec(range_start_text(s)) is Some && parse_ipv4_spec(
        range_end_text(s),
    ) is Some
}

pub open spec fn is_v6_range(s: Seq<char>) -> bool {
    range_parts(s).len() == 2 && parse_ipv6_spec(range_start_text(s)) is Some && parse_ipv6_spec(
        range_end_text(s),
    ) is Some
}

/// The candidate TLD: the token's last dot-separated label, trimmed.
pub open spec fn domain_tld(s: Seq<char>) -> Seq<char> {
    trim_spec(split_on(s, '.').last())
}

pub open spec fn is_domain(s: Seq<char>) -> bool {
    tld_matches(domain_tld(s))
}

/// The kind of a token, or `None` when it matches no recognized form.
pub open spec fn classify_spec(s: Seq<char>) -> Option<AddressKind> {
    if parse_ipv4_spec(s) is Some {
        Some(AddressKind::Ipv4Literal)
    } else if parse_ipv6_spec(s) is Some {
        Some(AddressKind::Ipv6Literal)
    } else if is_v4_subnet(s) {
        Some(AddressKind::Ipv4Subnet)
    } else if is_v6_subnet(s) {
        Some(AddressKind::Ipv6Subnet)
    } else if is_v4_range(s) {
        Some(AddressKind::Ipv4Range)
    } else if is_v6_range(s) {
        Some(AddressKind::Ipv6Range)
    } else if is_domain(s) {
        Some(AddressKind::Domain)
    } else {
        None
    }
}

/// Classifies one token, failing on a token of no recognized form.
pub fn classify(token: &str) -> (r: Result<AddressKind, ResolveError>)
    ensures
        match r {
            Ok(k) => classify_spec(token@) == Some(k),
            Err(e) => classify_spec(token@) is None && e@ == ErrView::AddressClassification(
                token@,
            ),
        },
{
    if parse_ipv4(token).is_some() {
        return Ok(AddressKind::Ipv4Literal);
    }
    if parse_ipv6(token).is_some() {
        return Ok(AddressKind::Ipv6Literal);
    }
    let sparts = split_char(token, '/');
    proof {
        assert(seq_views(sparts@).len() == sparts@.len());
    }
    if sparts.len() == 2 {
        proof {
            assert(seq_views(sparts@)[0] == sparts@[0]@);
            assert(seq_views(sparts@)[1] == sparts@[1]@);
        }
        if parse_ipv4(sparts[0].as_str()).is_some() && parse_dec_capped(
            sparts[1].as_str(),
            32,
        ).is_some() {
            return Ok(AddressKind::Ipv4Subnet);
        }
        if parse_ipv6(sparts[0].as_str()).is_some() && parse_dec_capped(
            sparts[1].as_str(),
            128,
        ).is_some() {
            return Ok(AddressKind::Ipv6Subnet);
        }
    }
    let rparts = split_char(token, '-');
    proof {
        assert(seq_views(rparts@).len() == rparts@.len());
    }
    if rparts.len() == 2 {
        proof {
            assert(seq_views(rparts@)[0] == rparts@[0]@);
            assert(seq_views(rparts@)[1] == rparts@[1]@);
        }
        let start = trim_str(rparts[0].as_str());
        let end = trim_str(rparts[1].as_str());
        if parse_ipv4(start.as_str()).is_some() && parse_ipv4(end.as_str()).is_some() {
            return Ok(AddressKind::Ipv4Range);
        }
        if parse_ipv6(start.as_str()).is_some() && parse_ipv6(end.as_str()).is_some() {
            return Ok(AddressKind::Ipv6Range);
        }
    }
    let dparts = split_char(token, '.');
    proof {
        lemma_split_on_len(token@, '.');
        assert(seq_views(dparts@).len() == dparts@.len());
        assert(seq_views(dparts@)[dparts@.len() - 1] == dparts@[dparts@.len() - 1]@);
    }
    let last = trim_str(dparts[dparts.len() - 1].as_str());
    if is_recognized_tld(last.as_str()) {
        return Ok(AddressKind::Domain);
    }
    Err(ResolveError::AddressClassification(String::from_str(token)))
}

} // verus!
