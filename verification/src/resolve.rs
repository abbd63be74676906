//! The batch resolver: a comma list or a file's worth of lines of address
//! tokens, plus one port expression, become the full target list.
//!
//! Resolution is all-or-nothing: the first malformed token aborts the batch,
//! and a batch that resolves to zero targets is itself an error. Tokens are
//! expanded independently, in input order, with no cross-token
//! deduplication: a target reachable through two tokens is kept twice.

use vstd::prelude::*;

use crate::classify::AddressKind;
use crate::classify::classify_spec;
use crate::errors::ErrView;
use crate::errors::ResolveError;
use crate::expand::domain_targets;
use crate::expand::fixed_expansion;
use crate::ports::parse_ports_spec;
use crate::ports::ports_result_view;
use crate::strings::clean_segments;
use crate::target::Target;
use crate::target::TargetView;
use crate::target::AddressFamilyPreference;
use crate::target::targets_view;
use crate::expand::expand;
use crate::ports::parse_ports;
use crate::strings::clean_split;
use crate::strings::seq_views;

verus! {

/// What one token will do when expanded: fail outright, produce a fixed
/// target sequence, or go to the DNS collaborator.
pub enum TokenPlan {
    Fail(ErrView),
    Fixed(Seq<TargetView>),
    Lookup,
}

pub open spec fn token_plan(token: Seq<char>, ports: Seq<u16>) -> TokenPlan {
    match classify_spec(token) {
        None => TokenPlan::Fail(ErrView::AddressClassification(token)),
        Some(AddressKind::Domain) => TokenPlan::Lookup,
        Some(_) => match fixed_expansion(token, ports) {
            Ok(v) => TokenPlan::Fixed(v),
            Err(e) => TokenPlan::Fail(e),
        },
    }
}

/// Whether `part` is a possible expansion of `token`: the fixed targets for
/// a deterministic token, or the filtered image of some DNS answer set for a
/// domain token.
pub open spec fn part_matches(
    token: Seq<char>,
    ports: Seq<u16>,
    pref: AddressFamilyPreference,
    part: Seq<TargetView>,
) -> bool {
    match token_plan(token, ports) {
        TokenPlan::Fail(_) => false,
        TokenPlan::Fixed(v) => part == v,
        TokenPlan::Lookup => exists|answers: Seq<crate::addr::IpAddress>|
            part == domain_targets(token, ports, pref, answers),
    }
}

pub open spec fn parts_match(
    tokens: Seq<Seq<char>>,
    ports: Seq<u16>,
    pref: AddressFamilyPreference,
    parts: Seq<Seq<TargetView>>,
) -> bool {
    parts.len() == tokens.len() && forall|i: int|
        0 <= i < tokens.len() ==> part_matches(tokens[i], ports, pref, #[trigger] parts[i])
}

/// The fixed expansion of a token (empty for domain or failing tokens).
pub open spec fn fixed_part(token: Seq<char>, ports: Seq<u16>) -> Seq<TargetView> {
    match token_plan(token, ports) {
        TokenPlan::Fixed(v) => v,
        _ => Seq::empty(),
    }
}

pub open spec fn all_fixed(tokens: Seq<Seq<char>>, ports: Seq<u16>) -> bool {
    forall|i: int| 0 <= i < tokens.len() ==> token_plan(#[trigger] tokens[i], ports) is Fixed
}

/// The concatenation of every token's fixed expansion, in input order.
pub open spec fn fixed_flat(tokens: Seq<Seq<char>>, ports: Seq<u16>) -> Seq<TargetView> {
    tokens.map_values(|t: Seq<char>| fixed_part(t, ports)).flatten()
}

/// The meaning of an optional port expression: none means no ports.
pub open spec fn ports_opt_spec(o: Option<Seq<char>>) -> Result<Seq<u16>, ErrView> {
    match o {
        None => Ok(Seq::empty()),
        Some(s) => parse_ports_spec(s),
    }
}

pub open spec fn opt_string_view(o: Option<String>) -> Option<Seq<char>> {
    match o {
        Some(s) => Some(s@),
        None => None,
    }
}

/// The core contract of batch resolution over a token list and parsed ports.
///
/// - A successful resolution returns one part per token, concatenated in
///   input order, each part a possible expansion of its token, and at least
///   one target in all.
/// - A failed resolution is either the empty-target-set error (with every
///   token expandable but the whole yield empty) or the error of the first
///   failing token (classification, range order, or DNS).
/// - When no token needs DNS, the outcome is fully determined: the exact
///   concatenation of the tokens' expansions if that is nonempty, else the
///   empty-target-set error.
pub open spec fn resolution_core(
    tokens: Seq<Seq<char>>,
    ports: Seq<u16>,
    pref: AddressFamilyPreference,
    r: Result<Vec<Target>, ResolveError>,
) -> bool {
    &&& (match r {
        Ok(ts) => ts@.len() > 0 && exists|parts: Seq<Seq<TargetView>>|
            parts_match(tokens, ports, pref, parts) && targets_view(ts@) == parts.flatten(),
        Err(e) => (e@ == ErrView::EmptyTargetSet && exists|parts: Seq<Seq<TargetView>>|
            parts_match(tokens, ports, pref, parts) && parts.flatten().len() == 0) || (exists|
            k: int,
        |
            #![trigger tokens[k]]
            0 <= k < tokens.len() && (forall|i: int|
                0 <= i < k ==> !(token_plan(#[trigger] tokens[i], ports) is Fail)) && match token_plan(
                tokens[k],
                ports,
            ) {
                TokenPlan::Fail(e0) => e@ == e0,
                TokenPlan::Lookup => e@ == ErrView::Dns(tokens[k]),
                TokenPlan::Fixed(_) => false,
            }),
    })
    &&& (all_fixed(tokens, ports) ==> match r {
        Ok(ts) => targets_view(ts@) == fixed_flat(tokens, ports) && fixed_flat(
            tokens,
            ports,
        ).len() > 0,
        Err(e) => e@ == ErrView::EmptyTargetSet && fixed_flat(tokens, ports).len() == 0,
    })
}

/// The full contract of the public entry points: a bad port expression fails
/// with its own error, and otherwise [`resolution_core`] holds.
pub open spec fn resolution_ensures(
    tokens: Seq<Seq<char>>,
    ports_text: Option<Seq<char>>,
    pref: AddressFamilyPreference,
    r: Result<Vec<Target>, ResolveError>,
) -> bool {
    match ports_opt_spec(ports_text) {
        Err(pe) => r matches Err(e) && e@ == pe,
        Ok(ports) => resolution_core(tokens, ports, pref, r),
    }
}

fn clone_target(t: &Target) -> (r: Target)
    ensures
        r@ == t@,
{
    let ports = t.ports.clone();
    proof {
        assert(ports@ =~= t.ports@);
    }
    let origin = match &t.origin {
        Some(s) => Some(s.clone()),
        None => None,
    };
    Target { address: t.address, ports, origin }
}

/// Expands each token and concatenates the results, stopping at the first
/// failure. Does not itself require a nonempty yield.
fn resolve_tokens(tokens: &Vec<String>, ports: &Vec<u16>, pref: AddressFamilyPreference) -> (r:
    Result<Vec<Target>, ResolveError>)
    ensures
        match r {
            Ok(ts) => exists|parts: Seq<Seq<TargetView>>|
                parts_match(seq_views(tokens@), ports@, pref, parts) && targets_view(ts@)
                    == parts.flatten(),
            Err(e) => exists|k: int|
                #![trigger seq_views(tokens@)[k]]
                0 <= k < tokens@.len() && (forall|i: int|
                    0 <= i < k ==> !(token_plan(#[trigger] seq_views(tokens@)[i], ports@) is Fail))
                    && match token_plan(seq_views(tokens@)[k], ports@) {
                    TokenPlan::Fail(e0) => e@ == e0,
                    TokenPlan::Lookup => e@ == ErrView::Dns(seq_views(tokens@)[k]),
                    TokenPlan::Fixed(_) => false,
                },
        },
        all_fixed(seq_views(tokens@), ports@) ==> r is Ok,
        (all_fixed(seq_views(tokens@), ports@) && r is Ok) ==> targets_view(r.unwrap()@)
            == fixed_flat(seq_views(tokens@), ports@),
{
    let ghost tv = seq_views(tokens@);
    let mut out: Vec<Target> = Vec::new();
    let ghost mut parts: Seq<Seq<TargetView>> = Seq::empty();
    let mut i: usize = 0;
    proof {
        assert(targets_view(out@) =~= parts.flatten());
    }
    while i < tokens.len()
        invariant
            0 <= i <= tokens@.len(),
            tv == seq_views(tokens@),
            parts.len() == i,
            forall|j: int| 0 <= j < i ==> part_matches(tv[j], ports@, pref, #[trigger] parts[j]),
            targets_view(out@) == parts.flatten(),
        decreases tokens@.len() - i,
    {
        proof {
            assert(tv[i as int] == tokens@[i as int]@);
        }
        match expand(tokens[i].as_str(), ports, pref) {
            Ok(got) => {
                let ghost part = targets_view(got@);
                proof {
                    // expand's contract makes this a possible expansion.
                    match classify_spec(tv[i as int]) {
                        None => {
                            assert(false);
                        },
                        Some(AddressKind::Domain) => {},
                        Some(_) => {},
                    }
                    assert(part_matches(tv[i as int], ports@, pref, part));
                }
                let mut j: usize = 0;
                let ghost out_before = out@;
                while j < got.len()
                    invariant
                        0 <= j <= got@.len(),
                        part == targets_view(got@),
                        targets_view(out@) == targets_view(out_before) + part.take(j as int),
                    decreases got@.len() - j,
                {
                    let ghost prev = out@;
                    let t = clone_target(&got[j]);
                    let ghost tv2 = t@;
                    proof {
                        assert(tv2 == part[j as int]);
                    }
                    out.push(t);
                    proof {
                        prev.lemma_push_map_commute(|x: Target| x@, out@[out@.len() - 1]);
                        assert(targets_view(out@) == targets_view(prev).push(tv2));
                        assert(targets_view(out@) =~= targets_view(out_before) + part.take(
                            j + 1int,
                        ));
                    }
                    j = j + 1;
                }
                proof {
                    assert(part.take(part.len() as int) =~= part);
                    let ghost parts_before = parts;
                    parts = parts.push(part);
                    parts_before.lemma_flatten_push(part);
                    assert(parts.drop_last() =~= parts_before);
                    assert(targets_view(out@) == parts.flatten());
                }
            },
            Err(e) => {
                proof {
                    let k = i as int;
                    assert forall|x: int| 0 <= x < k implies !(token_plan(
                        #[trigger] tv[x],
                        ports@,
                    ) is Fail) by {
                        assert(part_matches(tv[x], ports@, pref, parts[x]));
                    }
                    match classify_spec(tv[k]) {
                        None => {
                            assert(token_plan(tv[k], ports@) matches TokenPlan::Fail(e0) && e@
                                == e0);
                        },
                        Some(AddressKind::Domain) => {},
                        Some(_) => {},
                    }
                }
                return Err(e);
            },
        }
        i = i + 1;
    }
    proof {
        assert(tv.take(tv.len() as int) =~= tv);
        if all_fixed(tv, ports@) {
            let mapped = tv.map_values(|t: Seq<char>| fixed_part(t, ports@));
            assert forall|j: int| 0 <= j < tv.len() implies parts[j] == mapped[j] by {
                assert(part_matches(tv[j], ports@, pref, parts[j]));
            }
            assert(parts =~= mapped);
        }
    }
    Ok(out)
}

/// The target parser: the resolver's public face.
pub struct TargetParser;

impl TargetParser {
    /// Reads an optional port expression; `None` means no ports requested.
    pub fn ports_parser(ports: Option<String>) -> (r: Result<Vec<u16>, ResolveError>)
        ensures
            ports_result_view(r) == ports_opt_spec(opt_string_view(ports)),
    {
        match ports {
            Some(s) => parse_ports(s.as_str()),
            None => Ok(Vec::new()),
        }
    }

    /// Resolves a comma-separated list of address tokens against one port
    /// expression. See [`resolution_ensures`] for the full contract.
    pub fn target_from_input(
        target_addr: &str,
        target_ports: Option<String>,
        pref: AddressFamilyPreference,
    ) -> (r: Result<Vec<Target>, ResolveError>)
        ensures
            resolution_ensures(
                clean_segments(target_addr@, ','),
                opt_string_view(target_ports),
                pref,
                r,
            ),
    {
        let ghost ports_text = opt_string_view(target_ports);
        let ports = match Self::ports_parser(target_ports) {
            Ok(p) => p,
            Err(e) => {
                return Err(e);
            },
        };
        proof {
            assert(ports_opt_spec(ports_text) == Ok::<Seq<u16>, ErrView>(ports@));
        }
        let toks = clean_split(target_addr, ',');
        Self::finish(resolve_tokens(&toks, &ports, pref), pref, Ghost(seq_views(toks@)), Ghost(ports@))
    }

    /// Resolves a file's worth of lines, each line a comma-separated list of
    /// tokens, in file order. See [`resolution_ensures`] for the contract;
    /// opening and reading the file is its caller's business.
    pub fn target_from_lines(
        lines: &Vec<String>,
        target_ports: Option<String>,
        pref: AddressFamilyPreference,
    ) -> (r: Result<Vec<Target>, ResolveError>)
        ensures
            resolution_ensures(line_tokens(seq_views(lines@)), opt_string_view(target_ports), pref, r),
    {
        let ghost ports_text = opt_string_view(target_ports);
        let ports = match Self::ports_parser(target_ports) {
            Ok(p) => p,
            Err(e) => {
                return Err(e);
            },
        };
        proof {
            assert(ports_opt_spec(ports_text) == Ok::<Seq<u16>, ErrView>(ports@));
        }
        let ghost lv = seq_views(lines@);
        let ghost mapped = lv.map_values(|l: Seq<char>| clean_segments(l, ','));
        let mut toks: Vec<String> = Vec::new();
        let mut i: usize = 0;
        proof {
            assert(seq_views(toks@) =~= mapped.take(0).flatten());
        }
        while i < lines.len()
            invariant
                0 <= i <= lines@.len(),
                lv == seq_views(lines@),
                mapped == lv.map_values(|l: Seq<char>| clean_segments(l, ',')),
                seq_views(toks@) == mapped.take(i as int).flatten(),
            decreases lines@.len() - i,
        {
            proof {
                assert(lv[i as int] == lines@[i as int]@);
            }
            let mut line_toks = clean_split(lines[i].as_str(), ',');
            let ghost before = toks@;
            toks.append(&mut line_toks);
            proof {
                assert(seq_views(toks@) =~= seq_views(before) + mapped[i as int]);
                assert(mapped.take(i + 1int).drop_last() =~= mapped.take(i as int));
                mapped.take(i as int).lemma_flatten_push(mapped[i as int]);
                assert(mapped.take(i + 1int) =~= mapped.take(i as int).push(mapped[i as int]));
                assert(seq_views(toks@) =~= mapped.take(i + 1int).flatten());
            }
            i = i + 1;
        }
        proof {
            assert(mapped.take(lv.len() as int) =~= mapped);
        }
        Self::finish(resolve_tokens(&toks, &ports, pref), pref, Ghost(seq_views(toks@)), Ghost(ports@))
    }

    /// Applies the empty-target-set rule to a raw resolution result.
    fn finish(
        r: Result<Vec<Target>, ResolveError>,
        pref: AddressFamilyPreference,
        Ghost(tokens): Ghost<Seq<Seq<char>>>,
        Ghost(ports): Ghost<Seq<u16>>,
    ) -> (out: Result<Vec<Target>, ResolveError>)
        requires
            match r {
                Ok(ts) => exists|parts: Seq<Seq<TargetView>>|
                    parts_match(tokens, ports, pref, parts) && targets_view(ts@)
                        == parts.flatten(),
                Err(e) => exists|k: int|
                    #![trigger tokens[k]]
                    0 <= k < tokens.len() && (forall|i: int|
                        0 <= i < k ==> !(token_plan(#[trigger] tokens[i], ports) is Fail))
                        && match token_plan(tokens[k], ports) {
                        TokenPlan::Fail(e0) => e@ == e0,
                        TokenPlan::Lookup => e@ == ErrView::Dns(tokens[k]),
                        TokenPlan::Fixed(_) => false,
                    },
            },
            all_fixed(tokens, ports) ==> r is Ok,
            (all_fixed(tokens, ports) && r is Ok) ==> targets_view(r.unwrap()@) == fixed_flat(
                tokens,
                ports,
            ),
        ensures
            resolution_core(tokens, ports, pref, out),
    {
        match r {
            Ok(ts) => {
                if ts.len() == 0 {
                    proof {
                        let parts = choose|parts: Seq<Seq<TargetView>>|
                            parts_match(tokens, ports, pref, parts) && targets_view(ts@)
                                == parts.flatten();
                        assert(parts.flatten().len() == 0);
                    }
                    Err(ResolveError::EmptyTargetSet)
                } else {
                    Ok(ts)
                }
            },
            Err(e) => Err(e),
        }
    }
}

/// The tokens of a line-oriented batch: each line split on commas, trimmed,
/// emptied segments dropped, concatenated in file order.
pub open spec fn line_tokens(lines: Seq<Seq<char>>) -> Seq<Seq<char>> {
    lines.map_values(|l: Seq<char>| clean_segments(l, ',')).flatten()
}

/// Resolution concatenates per-token expansions in input order: the targets
/// of a token list split anywhere are the targets of the first half followed
/// by the targets of the second, and a one-token list yields exactly that
/// token's expansion.
pub proof fn lemma_resolution_is_concat(t1: Seq<Seq<char>>, t2: Seq<Seq<char>>, ports: Seq<u16>)
    ensures
        fixed_flat(t1 + t2, ports) == fixed_flat(t1, ports) + fixed_flat(t2, ports),
        t1.len() == 1 ==> fixed_flat(t1, ports) == fixed_part(t1[0], ports),
{
    let f = |t: Seq<char>| fixed_part(t, ports);
    assert((t1 + t2).map_values(f) =~= t1.map_values(f) + t2.map_values(f));
    vstd::seq_lib::lemma_flatten_concat(t1.map_values(f), t2.map_values(f));
    assert(fixed_flat(t1 + t2, ports) =~= fixed_flat(t1, ports) + fixed_flat(t2, ports));
    if t1.len() == 1 {
        let single = t1.map_values(f);
        assert(single.len() == 1);
        assert(single.drop_first() =~= Seq::<Seq<TargetView>>::empty());
        assert(single.flatten() == single.first() + single.drop_first().flatten());
        assert(Seq::<Seq<TargetView>>::empty().flatten() == Seq::<TargetView>::empty());
        assert(f(t1[0]) + Seq::<TargetView>::empty() =~= f(t1[0]));
    }
}

} // verus!
