//! The port-spec parser.
//!
//! A port expression is a comma-separated list of pieces; each piece is a
//! bare integer in `[0, 65535]` or an inclusive range `"start-end"` whose
//! start must strictly precede its end. Whitespace around pieces and range
//! endpoints is ignored; empty pieces are dropped; the empty (or
//! whitespace-only) expression means "no ports requested" and is not an
//! error. The result keeps first-occurrence order and drops duplicates, so it
//! is the ordered union of the listed pieces.

use vstd::prelude::*;

use crate::errors::ErrView;
use crate::errors::ResolveError;
use crate::strings::clean_segments;
use crate::strings::parse_dec_spec;
use crate::strings::split_on;
use crate::strings::trim_spec;
use crate::strings::clean_split;
use crate::strings::parse_dec_capped;
use crate::strings::seq_views;
use crate::strings::split_char;
use crate::strings::trim_str;

verus! {

/// All ports from `start` to `end`, inclusive, in ascending order.
pub open spec fn port_range(start: u16, end: u16) -> Seq<u16>
    recommends
        start <= end,
{
    Seq::new((end - start + 1) as nat, |i: int| (start + i) as u16)
}

/// What one nonempty piece of a port expression denotes: the ports it lists,
/// a malformed-token error, or a range-order error.
pub open spec fn parse_port_segment(seg: Seq<char>) -> Result<Seq<u16>, ErrView> {
    let parts = split_on(seg, '-');
    if parts.len() == 1 {
        match parse_dec_spec(seg, 0xFFFF) {
            Some(p) => Ok(seq![p as u16]),
            None => Err(ErrView::PortParse(seg)),
        }
    } else if parts.len() == 2 {
        match (parse_dec_spec(trim_spec(parts[0]), 0xFFFF), parse_dec_spec(
            trim_spec(parts[1]),
            0xFFFF,
        )) {
            (Some(a), Some(b)) => if a < b {
                Ok(port_range(a as u16, b as u16))
            } else {
                Err(ErrView::RangeOrder(seg))
            },
            _ => Err(ErrView::PortParse(seg)),
        }
    } else {
        Err(ErrView::PortParse(seg))
    }
}

/// Appends to `acc` the members of `xs` not already present, keeping order.
pub open spec fn dedup_append(acc: Seq<u16>, xs: Seq<u16>) -> Seq<u16>
    decreases xs.len(),
{
    if xs.len() == 0 {
        acc
    } else {
        let prev = dedup_append(acc, xs.drop_last());
        if prev.contains(xs.last()) {
            prev
        } else {
            prev.push(xs.last())
        }
    }
}

/// Folds the pieces of a port expression left to right, stopping at the
/// first malformed piece.
pub open spec fn parse_ports_segments(segs: Seq<Seq<char>>, acc: Seq<u16>) -> Result<
    Seq<u16>,
    ErrView,
>
    decreases segs.len(),
{
    if segs.len() == 0 {
        Ok(acc)
    } else {
        match parse_port_segment(segs[0]) {
            Ok(vals) => parse_ports_segments(segs.drop_first(), dedup_append(acc, vals)),
            Err(e) => Err(e),
        }
    }
}

/// The meaning of a whole port expression.
pub open spec fn parse_ports_spec(s: Seq<char>) -> Result<Seq<u16>, ErrView> {
    parse_ports_segments(clean_segments(s, ','), Seq::empty())
}

/// The view of an executable port-parse result.
pub open spec fn ports_result_view(r: Result<Vec<u16>, ResolveError>) -> Result<
    Seq<u16>,
    ErrView,
> {
    match r {
        Ok(v) => Ok(v@),
        Err(e) => Err(e@),
    }
}

fn vec_contains_u16(v: &Vec<u16>, x: u16) -> (r: bool)
    ensures
        r == v@.contains(x),
{
    let mut i: usize = 0;
    while i < v.len()
        invariant
            0 <= i <= v@.len(),
            forall|j: int| 0 <= j < i ==> v@[j] != x,
        decreases v@.len() - i,
    {
        if v[i] == x {
            return true;
        }
        i = i + 1;
    }
    false
}

/// Pushes the members of `vals` not already in `out`, in order.
fn dedup_extend(out: &mut Vec<u16>, vals: &Vec<u16>)
    ensures
        final(out)@ == dedup_append(old(out)@, vals@),
{
    let mut j: usize = 0;
    proof {
        assert(vals@.take(0) =~= Seq::<u16>::empty());
    }
    while j < vals.len()
        invariant
            0 <= j <= vals@.len(),
            out@ == dedup_append(old(out)@, vals@.take(j as int)),
        decreases vals@.len() - j,
    {
        proof {
            assert(vals@.take(j + 1int).drop_last() =~= vals@.take(j as int));
            assert(vals@.take(j + 1int).last() == vals@[j as int]);
        }
        let v = vals[j];
        if !vec_contains_u16(out, v) {
            out.push(v);
        }
        j = j + 1;
    }
    proof {
        assert(vals@.take(vals@.len() as int) =~= vals@);
    }
}

fn expand_port_range(start: u16, end: u16) -> (r: Vec<u16>)
    requires
        start < end,
    ensures
        r@ == port_range(start, end),
{
    let mut out: Vec<u16> = Vec::new();
    let mut p: u32 = start as u32;
    while p <= end as u32
        invariant
            start <= p <= end + 1,
            out@.len() == p - start,
            forall|k: int| 0 <= k < out@.len() ==> out@[k] == (start + k) as u16,
        decreases end + 1 - p,
    {
        out.push(p as u16);
        p = p + 1;
    }
    proof {
        assert(out@ =~= port_range(start, end));
    }
    out
}

/// Reads one nonempty piece of a port expression.
fn parse_port_segment_exec(seg: &String) -> (r: Result<Vec<u16>, ResolveError>)
    ensures
        ports_result_view(r) == parse_port_segment(seg@),
{
    let parts = split_char(seg.as_str(), '-');
    proof {
        assert(seq_views(parts@).len() == parts@.len());
    }
    if parts.len() == 1 {
        match parse_dec_capped(seg.as_str(), 0xFFFF) {
            Some(p) => {
                let mut v: Vec<u16> = Vec::new();
                v.push(p as u16);
                proof {
                    assert(v@ =~= seq![p as u16]);
                }
                Ok(v)
            },
            None => Err(ResolveError::PortParse(seg.clone())),
        }
    } else if parts.len() == 2 {
        proof {
            assert(seq_views(parts@)[0] == parts@[0]@);
            assert(seq_views(parts@)[1] == parts@[1]@);
        }
        let left = trim_str(parts[0].as_str());
        let right = trim_str(parts[1].as_str());
        let a = parse_dec_capped(left.as_str(), 0xFFFF);
        let b = parse_dec_capped(right.as_str(), 0xFFFF);
        match (a, b) {
            (Some(a), Some(b)) => {
                if a < b {
                    Ok(expand_port_range(a as u16, b as u16))
                } else {
                    Err(ResolveError::RangeOrder(seg.clone()))
                }
            },
            _ => Err(ResolveError::PortParse(seg.clone())),
        }
    } else {
        Err(ResolveError::PortParse(seg.clone()))
    }
}

/// Reads a whole port expression.
///
/// Returns the ordered, duplicate-free union of the listed ports; an empty or
/// whitespace-only expression gives an empty list. Fails on the first piece
/// that is not a port or a well-ordered range, naming that piece.
pub fn parse_ports(spec: &str) -> (r: Result<Vec<u16>, ResolveError>)
    ensures
        ports_result_view(r) == parse_ports_spec(spec@),
{
    let segs = clean_split(spec, ',');
    let ghost seg_views = clean_segments(spec@, ',');
    let mut out: Vec<u16> = Vec::new();
    let mut i: usize = 0;
    proof {
        assert(seg_views.skip(0) =~= seg_views);
    }
    while i < segs.len()
        invariant
            0 <= i <= segs@.len(),
            seq_views(segs@) == seg_views,
            seg_views == clean_segments(spec@, ','),
            parse_ports_spec(spec@) == parse_ports_segments(seg_views.skip(i as int), out@),
        decreases segs@.len() - i,
    {
        proof {
            assert(seg_views.skip(i as int)[0] == seg_views[i as int]);
            assert(seg_views.skip(i as int).drop_first() =~= seg_views.skip(i + 1int));
            assert(seg_views[i as int] == segs@[i as int]@);
        }
        match parse_port_segment_exec(&segs[i]) {
            Ok(vals) => {
                dedup_extend(&mut out, &vals);
            },
            Err(e) => {
                return Err(e);
            },
        }
        i = i + 1;
    }
    proof {
        assert(seg_views.skip(seg_views.len() as int) =~= Seq::<Seq<char>>::empty());
    }
    Ok(out)
}

/// The ports one piece lists (empty for a malformed piece).
pub open spec fn segment_ports(seg: Seq<char>) -> Seq<u16> {
    match parse_port_segment(seg) {
        Ok(v) => v,
        Err(_) => Seq::empty(),
    }
}

pub proof fn lemma_dedup_append_contains(acc: Seq<u16>, xs: Seq<u16>)
    ensures
        forall|x: u16|
            dedup_append(acc, xs).contains(x) <==> acc.contains(x) || xs.contains(x),
    decreases xs.len(),
{
    if xs.len() == 0 {
        assert(forall|x: u16| !xs.contains(x));
    } else {
        lemma_dedup_append_contains(acc, xs.drop_last());
        let prev = dedup_append(acc, xs.drop_last());
        let l = xs.last();
        assert forall|x: u16|
            dedup_append(acc, xs).contains(x) <==> acc.contains(x) || xs.contains(x) by {
            if xs.contains(x) {
                let i = choose|i: int| 0 <= i < xs.len() && xs[i] == x;
                if i < xs.len() - 1 {
                    assert(xs.drop_last()[i] == x);
                } else {
                    assert(x == l);
                }
            }
            if prev.contains(l) {
                if acc.contains(x) || xs.contains(x) {
                    if x == l {
                        assert(prev.contains(x));
                    }
                }
            } else {
                if prev.push(l).contains(x) {
                    let i = choose|i: int| 0 <= i < prev.push(l).len() && prev.push(l)[i] == x;
                    if i < prev.len() {
                        assert(prev[i] == x);
                    }
                }
                if acc.contains(x) || xs.contains(x) {
                    if x == l {
                        assert(prev.push(l)[prev.len() as int] == x);
                    } else if prev.contains(x) {
                        let i = choose|i: int| 0 <= i < prev.len() && prev[i] == x;
                        assert(prev.push(l)[i] == x);
                    }
                }
            }
            if xs.drop_last().contains(x) {
                let i = choose|i: int| 0 <= i < xs.len() - 1 && xs.drop_last()[i] == x;
                assert(xs[i] == x);
            }
        }
    }
}

pub proof fn lemma_dedup_append_no_duplicates(acc: Seq<u16>, xs: Seq<u16>)
    requires
        acc.no_duplicates(),
    ensures
        dedup_append(acc, xs).no_duplicates(),
    decreases xs.len(),
{
    if xs.len() > 0 {
        lemma_dedup_append_no_duplicates(acc, xs.drop_last());
        let prev = dedup_append(acc, xs.drop_last());
        let l = xs.last();
        if !prev.contains(l) {
            assert forall|i: int, j: int|
                0 <= i < j < prev.push(l).len() implies prev.push(l)[i] != prev.push(l)[j] by {
                if j < prev.len() {
                    assert(prev[i] != prev[j]);
                } else {
                    if prev.push(l)[i] == l {
                        assert(prev[i] == l);
                        assert(prev.contains(l));
                    }
                }
            }
        }
    }
}

/// Folding two batches one after the other is folding their concatenation.
pub proof fn lemma_dedup_append_concat(acc: Seq<u16>, a: Seq<u16>, b: Seq<u16>)
    ensures
        dedup_append(acc, a + b) == dedup_append(dedup_append(acc, a), b),
    decreases b.len(),
{
    if b.len() == 0 {
        assert(a + b =~= a);
    } else {
        assert((a + b).drop_last() =~= a + b.drop_last());
        assert((a + b).last() == b.last());
        lemma_dedup_append_concat(acc, a, b.drop_last());
    }
}

pub proof fn lemma_ports_segments_all_ok(segs: Seq<Seq<char>>, acc: Seq<u16>)
    requires
        parse_ports_segments(segs, acc) is Ok,
    ensures
        forall|k: int| 0 <= k < segs.len() ==> parse_port_segment(#[trigger] segs[k]) is Ok,
    decreases segs.len(),
{
    if segs.len() > 0 {
        match parse_port_segment(segs[0]) {
            Ok(vals) => {
                lemma_ports_segments_all_ok(segs.drop_first(), dedup_append(acc, vals));
                assert forall|k: int|
                    0 <= k < segs.len() implies parse_port_segment(#[trigger] segs[k]) is Ok by {
                    if k > 0 {
                        assert(parse_port_segment(segs.drop_first()[k - 1]) is Ok);
                    }
                }
            },
            Err(_) => {},
        }
    }
}

pub proof fn lemma_ports_segments_flatten(segs: Seq<Seq<char>>, acc: Seq<u16>)
    requires
        forall|k: int| 0 <= k < segs.len() ==> parse_port_segment(#[trigger] segs[k]) is Ok,
    ensures
        parse_ports_segments(segs, acc) == Ok::<Seq<u16>, ErrView>(
            dedup_append(acc, segs.map_values(|t: Seq<char>| segment_ports(t)).flatten()),
        ),
    decreases segs.len(),
{
    let mapped = segs.map_values(|t: Seq<char>| segment_ports(t));
    if segs.len() == 0 {
        assert(mapped.flatten() =~= Seq::<u16>::empty());
    } else {
        let vals = segment_ports(segs[0]);
        assert forall|k: int|
            0 <= k < segs.drop_first().len() implies parse_port_segment(
            #[trigger] segs.drop_first()[k],
        ) is Ok by {
            assert(segs.drop_first()[k] == segs[k + 1]);
        }
        lemma_ports_segments_flatten(segs.drop_first(), dedup_append(acc, vals));
        assert(mapped.drop_first() =~= segs.drop_first().map_values(
            |t: Seq<char>| segment_ports(t),
        ));
        assert(mapped.flatten() == vals + mapped.drop_first().flatten());
        lemma_dedup_append_concat(acc, vals, mapped.drop_first().flatten());
    }
}

/// A valid port expression denotes exactly the ordered union of its pieces:
/// every piece parses, the result is the first-occurrence-ordered,
/// duplicate-free fold of the pieces' port lists taken in input order, and it
/// holds a port precisely when some piece lists that port.
pub proof fn lemma_parse_ports_is_ordered_union(s: Seq<char>)
    requires
        parse_ports_spec(s) is Ok,
    ensures
        forall|k: int|
            0 <= k < clean_segments(s, ',').len() ==> parse_port_segment(
                #[trigger] clean_segments(s, ',')[k],
            ) is Ok,
        parse_ports_spec(s) == Ok::<Seq<u16>, ErrView>(
            dedup_append(
                Seq::empty(),
                clean_segments(s, ',').map_values(|t: Seq<char>| segment_ports(t)).flatten(),
            ),
        ),
        parse_ports_spec(s)->Ok_0.no_duplicates(),
        forall|x: u16|
            parse_ports_spec(s)->Ok_0.contains(x) <==> exists|k: int|
                0 <= k < clean_segments(s, ',').len() && #[trigger] segment_ports(
                    clean_segments(s, ',')[k],
                ).contains(x),
{
    let segs = clean_segments(s, ',');
    let mapped = segs.map_values(|t: Seq<char>| segment_ports(t));
    lemma_ports_segments_all_ok(segs, Seq::empty());
    lemma_ports_segments_flatten(segs, Seq::empty());
    lemma_dedup_append_no_duplicates(Seq::empty(), mapped.flatten());
    lemma_dedup_append_contains(Seq::empty(), mapped.flatten());
    let v = parse_ports_spec(s)->Ok_0;
    assert forall|x: u16|
        v.contains(x) <==> exists|k: int|
            0 <= k < segs.len() && #[trigger] segment_ports(segs[k]).contains(x) by {
        lemma_flatten_contains(mapped, x);
        if exists|k: int| 0 <= k < segs.len() && #[trigger] segment_ports(segs[k]).contains(x) {
            let k = choose|k: int|
                0 <= k < segs.len() && #[trigger] segment_ports(segs[k]).contains(x);
            assert(mapped[k] == segment_ports(segs[k]));
        }
        if exists|k: int| 0 <= k < mapped.len() && #[trigger] mapped[k].contains(x) {
            let k = choose|k: int| 0 <= k < mapped.len() && #[trigger] mapped[k].contains(x);
            assert(segment_ports(segs[k]).contains(x));
        }
    }
}

/// Flattening contains an element precisely when one of the parts does.
pub proof fn lemma_flatten_contains(xs: Seq<Seq<u16>>, x: u16)
    ensures
        xs.flatten().contains(x) <==> exists|k: int| 0 <= k < xs.len() && #[trigger] xs[k].contains(
            x,
        ),
    decreases xs.len(),
{
    if xs.len() == 0 {
    } else {
        lemma_flatten_contains(xs.drop_first(), x);
        assert(xs.flatten() == xs.first() + xs.drop_first().flatten());
        if xs.flatten().contains(x) {
            let i = choose|i: int| 0 <= i < xs.flatten().len() && xs.flatten()[i] == x;
            if i < xs.first().len() {
                assert(xs.first()[i] == x);
                assert(xs[0].contains(x));
            } else {
                assert(xs.drop_first().flatten()[i - xs.first().len()] == x);
                assert(xs.drop_first().flatten().contains(x));
                let k = choose|k: int|
                    0 <= k < xs.drop_first().len() && #[trigger] xs.drop_first()[k].contains(x);
                assert(xs[k + 1].contains(x));
            }
        }
        if exists|k: int| 0 <= k < xs.len() && #[trigger] xs[k].contains(x) {
            let k = choose|k: int| 0 <= k < xs.len() && #[trigger] xs[k].contains(x);
            if k == 0 {
                let i = choose|i: int| 0 <= i < xs[0].len() && xs[0][i] == x;
                assert(xs.flatten()[i] == x);
            } else {
                assert(xs.drop_first()[k - 1].contains(x));
                assert(xs.drop_first().flatten().contains(x));
                let i = choose|i: int|
                    0 <= i < xs.drop_first().flatten().len() && xs.drop_first().flatten()[i] == x;
                assert(xs.flatten()[xs.first().len() + i] == x);
            }
        }
    }
}

} // verus!
