//! The address model: a single IPv4 or IPv6 address held as its numeric
//! value, with parsers for the literal grammars the resolver accepts and
//! renderers for the report.
//!
//! Grammar choices, stated here once:
//! - An IPv4 literal is four dot-separated decimal octets, each `0..=255`,
//!   with no leading zeros (a lone `0` is fine).
//! - An IPv6 literal is colon-separated groups of one to four hexadecimal
//!   digits (either case): eight groups in full form, or fewer with a single
//!   `::` standing for the missing zero groups. The dotted-quad tail form
//!   (`::ffff:1.2.3.4`) is not accepted.
//! - Rendering is dotted decimal for IPv4; for IPv6 it is lowercase
//!   hexadecimal groups without leading zeros, the leftmost longest run of
//!   two or more zero groups compressed to `::`.

use vstd::prelude::*;

use crate::strings::all_hex_digits;
use crate::strings::dec_chars;
use crate::strings::hex_chars;
use crate::strings::hex_val;
use crate::strings::is_hex_digit;
use crate::strings::lemma_hex_val_bound;
use crate::strings::parse_dec_spec;
use crate::strings::split_on;
use crate::strings::hex_digit_of_exec;
use crate::strings::is_hex_digit_exec;
use crate::strings::parse_dec_capped;
use crate::strings::seq_views;
use crate::strings::split_char;
use crate::strings::u64_to_dec;
use crate::strings::u64_to_hex;

verus! {

/// One concrete scan address, IPv4 or IPv6, as its numeric value.
#[derive(Debug, Clone, Copy, PartialEq, Eq, Structural)]
pub enum IpAddress {
    V4(u32),
    V6(u128),
}

impl IpAddress {
    pub open spec fn is_v4(self) -> bool {
        self is V4
    }

    pub fn is_ipv4(&self) -> (r: bool)
        ensures
            r == self.is_v4(),
    {
        match self {
            IpAddress::V4(_) => true,
            IpAddress::V6(_) => false,
        }
    }
}

/// One dot-separated octet: decimal, no leading zeros, at most 255.
pub open spec fn parse_octet_spec(s: Seq<char>) -> Option<u8> {
    if s.len() > 1 && s[0] == '0' {
        None
    } else {
        match parse_dec_spec(s, 255) {
            Some(v) => Some(v as u8),
            None => None,
        }
    }
}

fn parse_octet(s: &str) -> (r: Option<u8>)
    ensures
        r == parse_octet_spec(s@),
{
    let n = s.unicode_len();
    if n > 1 && s.get_char(0) == '0' {
        return None;
    }
    match parse_dec_capped(s, 255) {
        Some(v) => Some(v as u8),
        None => None,
    }
}

/// The IPv4 literal grammar: `A.B.C.D`, each part an octet.
pub open spec fn parse_ipv4_spec(s: Seq<char>) -> Option<u32> {
    let parts = split_on(s, '.');
    if parts.len() == 4 {
        match (parse_octet_spec(parts[0]), parse_octet_spec(parts[1]), parse_octet_spec(parts[2]),
        parse_octet_spec(parts[3])) {
            (Some(a), Some(b), Some(c), Some(d)) => Some(
                (a * 0x1000000 + b * 0x10000 + c * 0x100 + d) as u32,
            ),
            _ => None,
        }
    } else {
        None
    }
}

/// Reads an IPv4 literal.
pub fn parse_ipv4(s: &str) -> (r: Option<u32>)
    ensures
        r == parse_ipv4_spec(s@),
{
    let parts = split_char(s, '.');
    proof {
        assert(seq_views(parts@).len() == parts@.len());
    }
    if parts.len() != 4 {
        return None;
    }
    proof {
        assert(seq_views(parts@)[0] == parts@[0]@);
        assert(seq_views(parts@)[1] == parts@[1]@);
        assert(seq_views(parts@)[2] == parts@[2]@);
        assert(seq_views(parts@)[3] == parts@[3]@);
    }
    let a = parse_octet(parts[0].as_str());
    let b = parse_octet(parts[1].as_str());
    let c = parse_octet(parts[2].as_str());
    let d = parse_octet(parts[3].as_str());
    match (a, b, c, d) {
        (Some(a), Some(b), Some(c), Some(d)) => Some(
            (a as u32) * 0x1000000 + (b as u32) * 0x10000 + (c as u32) * 0x100 + (d as u32),
        ),
        _ => None,
    }
}

/// Dotted-decimal rendering of an IPv4 value.
pub open spec fn ipv4_chars(a: u32) -> Seq<char> {
    dec_chars((a / 0x1000000) as nat) + seq!['.'] + dec_chars(((a / 0x10000) % 0x100) as nat)
        + seq!['.'] + dec_chars(((a / 0x100) % 0x100) as nat) + seq!['.'] + dec_chars(
        (a % 0x100) as nat,
    )
}

pub fn ipv4_to_string(a: u32) -> (r: String)
    ensures
        r@ == ipv4_chars(a),
{
    proof {
        reveal_strlit(".");
    }
    let mut s = u64_to_dec((a / 0x1000000) as u64);
    s.append(".");
    let b = u64_to_dec(((a / 0x10000) % 0x100) as u64);
    s.append(b.as_str());
    s.append(".");
    let c = u64_to_dec(((a / 0x100) % 0x100) as u64);
    s.append(c.as_str());
    s.append(".");
    let d = u64_to_dec((a % 0x100) as u64);
    s.append(d.as_str());
    proof {
        assert(s@ =~= ipv4_chars(a));
    }
    s
}

/// One colon-separated group: one to four hexadecimal digits.
pub open spec fn parse_group_spec(s: Seq<char>) -> Option<u16> {
    if 1 <= s.len() <= 4 && all_hex_digits(s) {
        Some(hex_val(s) as u16)
    } else {
        None
    }
}

fn parse_group(s: &str) -> (r: Option<u16>)
    ensures
        r == parse_group_spec(s@),
{
    let n = s.unicode_len();
    if n < 1 || n > 4 {
        return None;
    }
    let mut acc: u32 = 0;
    let mut i: usize = 0;
    proof {
        assert(s@.take(0) =~= Seq::<char>::empty());
    }
    while i < n
        invariant
            0 <= i <= n,
            n == s@.len(),
            n <= 4,
            all_hex_digits(s@.take(i as int)),
            acc == hex_val(s@.take(i as int)),
            acc <= 0xFFFF,
        decreases n - i,
    {
        let c = s.get_char(i);
        if !is_hex_digit_exec(c) {
            return None;
        }
        let d = hex_digit_of_exec(c);
        proof {
            assert(s@.take(i + 1int).drop_last() =~= s@.take(i as int));
            assert(s@.take(i + 1int).last() == s@[i as int]);
            assert(forall|j: int| 0 <= j < i + 1 ==> is_hex_digit(#[trigger] s@.take(i + 1int)[j]));
            lemma_hex_val_bound(s@.take(i + 1int));
        }
        acc = acc * 16 + d;
        i = i + 1;
    }
    proof {
        assert(s@.take(n as int) =~= s@);
    }
    Some(acc as u16)
}

/// Position of the first `::` in `s` (the length of `s` when there is none).
pub open spec fn find_double_colon(s: Seq<char>) -> int
    decreases s.len(),
{
    if s.len() < 2 {
        s.len() as int
    } else if s[0] == ':' && s[1] == ':' {
        0
    } else {
        1 + find_double_colon(s.drop_first())
    }
}

pub proof fn lemma_find_double_colon(s: Seq<char>)
    ensures
        0 <= find_double_colon(s) <= s.len(),
        find_double_colon(s) < s.len() ==> find_double_colon(s) + 1 < s.len() && s[
            find_double_colon(s)
        ] == ':' && s[find_double_colon(s) + 1] == ':',
        forall|j: int|
            0 <= j < find_double_colon(s) && j + 1 < s.len() ==> !(#[trigger] s[j] == ':' && s[j + 1] == ':'),
    decreases s.len(),
{
    if s.len() >= 2 && !(s[0] == ':' && s[1] == ':') {
        lemma_find_double_colon(s.drop_first());
        assert forall|j: int|
            0 <= j < find_double_colon(s) && j + 1 < s.len() implies !(#[trigger] s[j] == ':' && s[j + 1]
            == ':') by {
            if j > 0 {
                assert(s.drop_first()[j - 1] == s[j]);
                assert(s.drop_first()[j] == s[j + 1]);
            }
        }
    }
}

/// The group sequences of the two sides of a `::` (an empty side has no
/// groups; a nonempty side is split at single colons).
pub open spec fn side_groups(t: Seq<char>) -> Seq<Seq<char>> {
    if t.len() == 0 {
        Seq::empty()
    } else {
        split_on(t, ':')
    }
}

pub open spec fn all_groups(parts: Seq<Seq<char>>) -> bool {
    forall|k: int| 0 <= k < parts.len() ==> parse_group_spec(#[trigger] parts[k]) is Some
}

pub open spec fn group_vals(parts: Seq<Seq<char>>) -> Seq<u16> {
    parts.map_values(
        |g: Seq<char>|
            match parse_group_spec(g) {
                Some(v) => v,
                None => 0u16,
            },
    )
}

/// The value of a big-endian sequence of 16-bit groups.
pub open spec fn groups_val(gs: Seq<u16>) -> int
    decreases gs.len(),
{
    if gs.len() == 0 {
        0
    } else {
        groups_val(gs.drop_last()) * 0x10000 + gs.last()
    }
}

pub open spec fn zero_groups(n: nat) -> Seq<u16> {
    Seq::new(n, |i: int| 0u16)
}

/// The IPv6 literal grammar: eight groups in full form, or left and right
/// group runs around one `::` covering the missing zero groups.
pub open spec fn parse_ipv6_spec(s: Seq<char>) -> Option<u128> {
    let i = find_double_colon(s);
    if i == s.len() {
        let parts = split_on(s, ':');
        if parts.len() == 8 && all_groups(parts) {
            Some(groups_val(group_vals(parts)) as u128)
        } else {
            None
        }
    } else {
        let lg = side_groups(s.take(i));
        let rg = side_groups(s.skip(i + 2));
        if all_groups(lg) && all_groups(rg) && lg.len() + rg.len() <= 7 {
            Some(
                groups_val(
                    group_vals(lg) + zero_groups((8 - lg.len() - rg.len()) as nat) + group_vals(rg),
                ) as u128,
            )
        } else {
            None
        }
    }
}

pub proof fn lemma_pow_groups_values()
    ensures
        pow_groups(0nat) == 0x1,
        pow_groups(1nat) == 0x10000,
        pow_groups(2nat) == 0x100000000,
        pow_groups(3nat) == 0x1000000000000,
        pow_groups(4nat) == 0x10000000000000000,
        pow_groups(5nat) == 0x100000000000000000000,
        pow_groups(6nat) == 0x1000000000000000000000000,
        pow_groups(7nat) == 0x10000000000000000000000000000,
        pow_groups(8nat) == 0x100000000000000000000000000000000,
{
    reveal_with_fuel(pow_groups, 9);
}

pub proof fn lemma_groups_val_bound(gs: Seq<u16>)
    requires
        gs.len() <= 8,
    ensures
        0 <= groups_val(gs) < 0x100000000000000000000000000000000,
        gs.len() <= 7 ==> groups_val(gs) < 0x10000000000000000000000000000,
{
    lemma_groups_val_bound_general(gs);
    lemma_pow_groups_values();
    lemma_pow_groups_monotone(gs.len(), 8nat);
    if gs.len() <= 7 {
        lemma_pow_groups_monotone(gs.len(), 7nat);
    }
}

/// `0x10000` to the `n`.
pub open spec fn pow_groups(n: nat) -> int
    decreases n,
{
    if n == 0 {
        1
    } else {
        0x10000 * pow_groups((n - 1) as nat)
    }
}

pub proof fn lemma_groups_val_bound_general(gs: Seq<u16>)
    ensures
        0 <= groups_val(gs) < pow_groups(gs.len()),
    decreases gs.len(),
{
    if gs.len() > 0 {
        lemma_groups_val_bound_general(gs.drop_last());
        assert(groups_val(gs.drop_last()) * 0x10000 + gs.last() < pow_groups(
            gs.drop_last().len(),
        ) * 0x10000) by {
            assert(groups_val(gs.drop_last()) + 1 <= pow_groups(gs.drop_last().len()));
            assert((groups_val(gs.drop_last()) + 1) * 0x10000 <= pow_groups(gs.drop_last().len())
                * 0x10000) by (nonlinear_arith)
                requires
                    groups_val(gs.drop_last()) + 1 <= pow_groups(gs.drop_last().len()),
            ;
        }
    }
}

pub proof fn lemma_pow_groups_pos(n: nat)
    ensures
        pow_groups(n) >= 1,
    decreases n,
{
    if n > 0 {
        lemma_pow_groups_pos((n - 1) as nat);
    }
}

pub proof fn lemma_pow_groups_monotone(a: nat, b: nat)
    requires
        a <= b,
    ensures
        pow_groups(a) <= pow_groups(b),
        pow_groups(a) >= 1,
    decreases b,
{
    if a == b {
        lemma_pow_groups_pos(a);
    } else {
        lemma_pow_groups_monotone(a, (b - 1) as nat);
    }
}

fn groups_to_val(gs: &Vec<u16>) -> (r: u128)
    requires
        gs@.len() <= 8,
    ensures
        r == groups_val(gs@),
{
    let mut acc: u128 = 0;
    let mut i: usize = 0;
    proof {
        assert(gs@.take(0) =~= Seq::<u16>::empty());
    }
    while i < gs.len()
        invariant
            0 <= i <= gs@.len() <= 8,
            acc == groups_val(gs@.take(i as int)),
        decreases gs@.len() - i,
    {
        proof {
            assert(gs@.take(i + 1int).drop_last() =~= gs@.take(i as int));
            assert(gs@.take(i + 1int).last() == gs@[i as int]);
            lemma_groups_val_bound_general(gs@.take(i as int));
            lemma_pow_groups_monotone(i as nat, 7nat);
            lemma_pow_groups_values();
        }
        acc = acc * 0x10000 + gs[i] as u128;
        i = i + 1;
    }
    proof {
        assert(gs@.take(gs@.len() as int) =~= gs@);
    }
    acc
}

/// Parses a run of colon-separated groups (for one side of a `::`, or the
/// full form). Returns the group values, or `None` if any group is bad.
fn parse_group_run(parts: &Vec<String>) -> (r: Option<Vec<u16>>)
    ensures
        match r {
            Some(v) => all_groups(seq_views(parts@)) && v@ == group_vals(seq_views(parts@)),
            None => !all_groups(seq_views(parts@)),
        },
{
    let ghost views = seq_views(parts@);
    let mut out: Vec<u16> = Vec::new();
    let mut i: usize = 0;
    proof {
        assert(group_vals(views).take(0) =~= Seq::<u16>::empty());
        assert(out@ =~= group_vals(views).take(0));
    }
    while i < parts.len()
        invariant
            0 <= i <= parts@.len(),
            views == seq_views(parts@),
            forall|k: int| 0 <= k < i ==> parse_group_spec(#[trigger] views[k]) is Some,
            out@ == group_vals(views).take(i as int),
        decreases parts@.len() - i,
    {
        proof {
            assert(views[i as int] == parts@[i as int]@);
        }
        match parse_group(parts[i].as_str()) {
            Some(v) => {
                out.push(v);
                proof {
                    assert(group_vals(views)[i as int] == v);
                    assert(out@ =~= group_vals(views).take(i + 1int));
                }
            },
            None => {
                return None;
            },
        }
        i = i + 1;
    }
    proof {
        assert(group_vals(views).take(parts@.len() as int) =~= group_vals(views));
    }
    Some(out)
}

/// Reads an IPv6 literal.
pub fn parse_ipv6(s: &str) -> (r: Option<u128>)
    ensures
        r == parse_ipv6_spec(s@),
{
    proof {
        lemma_find_double_colon(s@);
    }
    let n = s.unicode_len();
    // Find the first "::", if any.
    let mut dc: usize = n;
    let mut i: usize = 0;
    let scan_end = if n == 0 { 0 } else { n - 1 };
    while i < scan_end && dc == n
        invariant
            0 <= i <= scan_end,
            scan_end == if n == 0 { 0int } else { n - 1int },
            n == s@.len(),
            dc == n || (dc + 1 < n && s@[dc as int] == ':' && s@[dc as int + 1] == ':'),
            dc == n ==> forall|j: int| 0 <= j < i && j + 1 < n ==> !(#[trigger] s@[j] == ':' && s@[j + 1]
                == ':'),
            dc < n ==> dc == find_double_colon(s@),
        decreases n - i,
    {
        if s.get_char(i) == ':' && s.get_char(i + 1) == ':' {
            dc = i;
            proof {
                lemma_find_double_colon(s@);
                if find_double_colon(s@) < i {
                    assert(s@[find_double_colon(s@)] == ':' && s@[find_double_colon(s@) + 1]
                        == ':');
                }
                assert(dc == find_double_colon(s@));
            }
        }
        i = i + 1;
    }
    proof {
        lemma_find_double_colon(s@);
        if dc == n {
            assert(forall|j: int| 0 <= j < n - 1 ==> !(#[trigger] s@[j] == ':' && s@[j + 1] == ':'));
            if find_double_colon(s@) < n {
                assert(s@[find_double_colon(s@)] == ':');
            }
            assert(find_double_colon(s@) == n);
        }
    }
    if dc == n {
        // Full form: exactly eight groups.
        let parts = split_char(s, ':');
        proof {
            assert(seq_views(parts@).len() == parts@.len());
        }
        if parts.len() != 8 {
            return None;
        }
        match parse_group_run(&parts) {
            Some(gs) => Some(groups_to_val(&gs)),
            None => None,
        }
    } else {
        // One "::": parse each side, pad the middle with zero groups.
        let left = s.substring_char(0, dc);
        let right = s.substring_char(dc + 2, n);
        proof {
            assert(left@ =~= s@.take(dc as int));
            assert(right@ =~= s@.skip(dc + 2int));
        }
        let lparts = if left.unicode_len() == 0 {
            Vec::new()
        } else {
            split_char(left, ':')
        };
        let rparts = if right.unicode_len() == 0 {
            Vec::new()
        } else {
            split_char(right, ':')
        };
        proof {
            assert(seq_views(Seq::<String>::empty()) =~= Seq::<Seq<char>>::empty());
            assert(seq_views(lparts@) == side_groups(s@.take(dc as int)));
            assert(seq_views(rparts@) == side_groups(s@.skip(dc + 2int)));
            assert(seq_views(lparts@).len() == lparts@.len());
            assert(seq_views(rparts@).len() == rparts@.len());
        }
        let lg = match parse_group_run(&lparts) {
            Some(v) => v,
            None => {
                return None;
            },
        };
        let rg = match parse_group_run(&rparts) {
            Some(v) => v,
            None => {
                return None;
            },
        };
        if lg.len() > 7 || rg.len() > 7 - lg.len() {
            return None;
        }
        let mut full: Vec<u16> = lg;
        let pad = 8 - full.len() - rg.len();
        let mut p: usize = 0;
        while p < pad
            invariant
                0 <= p <= pad,
                pad == 8 - lg@.len() - rg@.len(),
                full@ == lg@ + zero_groups(p as nat),
            decreases pad - p,
        {
            full.push(0);
            proof {
                assert(full@ =~= lg@ + zero_groups((p + 1) as nat));
            }
            p = p + 1;
        }
        let mut q: usize = 0;
        while q < rg.len()
            invariant
                0 <= q <= rg@.len(),
                pad == 8 - lg@.len() - rg@.len(),
                full@ == lg@ + zero_groups(pad as nat) + rg@.take(q as int),
            decreases rg@.len() - q,
        {
            full.push(rg[q]);
            proof {
                assert(full@ =~= lg@ + zero_groups(pad as nat) + rg@.take(q + 1int));
            }
            q = q + 1;
        }
        proof {
            assert(rg@.take(rg@.len() as int) =~= rg@);
            assert(full@.len() == 8);
        }
        Some(groups_to_val(&full))
    }
}

/// The value of group `k` (big-endian) of an IPv6 address.
pub open spec fn group_at(a: u128, k: int) -> int {
    ((a as int) / group_shift(k)) % 0x10000
}

/// Groups `from..to` in lowercase hexadecimal, joined with single colons.
pub open spec fn ipv6_span_chars(a: u128, from: int, to: int) -> Seq<char>
    decreases to - from,
{
    if from >= to {
        Seq::empty()
    } else if from == to - 1 {
        hex_chars(group_at(a, from) as nat)
    } else {
        hex_chars(group_at(a, from) as nat) + seq![':'] + ipv6_span_chars(a, from + 1, to)
    }
}

/// The length of the zero-group run starting at group `k`.
pub open spec fn zero_run_len(a: u128, k: int) -> int
    decreases 8 - k,
{
    if k < 0 || k >= 8 {
        0
    } else if group_at(a, k) != 0 {
        0
    } else {
        1 + zero_run_len(a, k + 1)
    }
}

/// The leftmost longest zero-group run at or after group `k`, as its start
/// and length (start 8, length 0 when there is none).
pub open spec fn best_zero_run(a: u128, k: int) -> (int, int)
    decreases 8 - k,
{
    if k >= 8 {
        (8int, 0int)
    } else {
        let rest = best_zero_run(a, k + 1);
        if zero_run_len(a, k) >= rest.1 {
            (k, zero_run_len(a, k))
        } else {
            rest
        }
    }
}

/// Rendering of an IPv6 value: lowercase hexadecimal groups without leading
/// zeros, with the leftmost longest run of two or more zero groups
/// compressed to `::` (a single zero group stays written out).
pub open spec fn ipv6_chars(a: u128) -> Seq<char> {
    let run = best_zero_run(a, 0);
    if run.1 < 2 {
        ipv6_span_chars(a, 0, 8)
    } else {
        ipv6_span_chars(a, 0, run.0) + seq![':'] + seq![':'] + ipv6_span_chars(
            a,
            run.0 + run.1,
            8,
        )
    }
}

/// The divisor that brings group `k` (big-endian) to the low 16 bits.
pub open spec fn group_shift(k: int) -> int {
    pow_groups((7 - k) as nat)
}

fn group_shift_exec(k: usize) -> (r: u128)
    requires
        k < 8,
    ensures
        r == group_shift(k as int),
{
    let shifts: [u128; 8] = [
        0x10000000000000000000000000000,
        0x1000000000000000000000000,
        0x100000000000000000000,
        0x10000000000000000,
        0x1000000000000,
        0x100000000,
        0x10000,
        0x1,
    ];
    let r = shifts[k];
    proof {
        lemma_pow_groups_values();
    }
    r
}

fn ipv6_group_at(a: u128, k: usize) -> (g: u64)
    requires
        k < 8,
    ensures
        g == group_at(a, k as int),
        g <= 0xFFFF,
{
    let shift = group_shift_exec(k);
    proof {
        lemma_pow_groups_monotone((7 - k) as nat, 7nat);
    }
    ((a / shift) % 0x10000) as u64
}

fn zero_run_exec(a: u128, k: usize) -> (n: usize)
    requires
        k <= 8,
    ensures
        n == zero_run_len(a, k as int),
        k + n <= 8,
    decreases 8 - k,
{
    if k >= 8 {
        0
    } else if ipv6_group_at(a, k) != 0 {
        0
    } else {
        1 + zero_run_exec(a, k + 1)
    }
}

fn ipv6_span_to_string(a: u128, from: usize, to: usize) -> (r: String)
    requires
        from <= to <= 8,
    ensures
        r@ == ipv6_span_chars(a, from as int, to as int),
{
    proof {
        reveal_strlit(":");
    }
    let mut s = String::new();
    let mut k: usize = from;
    while k < to
        invariant
            from <= k <= to <= 8,
            s@ + ipv6_span_chars(a, k as int, to as int) == ipv6_span_chars(
                a,
                from as int,
                to as int,
            ),
        decreases to - k,
    {
        let g = ipv6_group_at(a, k);
        let gtext = u64_to_hex(g);
        s.append(gtext.as_str());
        if k < to - 1 {
            s.append(":");
        }
        proof {
            reveal_strlit(":");
            if k == to - 1 {
                assert(ipv6_span_chars(a, k as int, to as int) == hex_chars(
                    group_at(a, k as int) as nat,
                ));
            } else {
                assert(ipv6_span_chars(a, k as int, to as int) == hex_chars(
                    group_at(a, k as int) as nat,
                ) + seq![':'] + ipv6_span_chars(a, k as int + 1, to as int));
            }
            assert(s@ + ipv6_span_chars(a, k + 1int, to as int) =~= ipv6_span_chars(
                a,
                from as int,
                to as int,
            ));
        }
        k = k + 1;
    }
    proof {
        assert(ipv6_span_chars(a, to as int, to as int) =~= Seq::<char>::empty());
        assert(s@ =~= ipv6_span_chars(a, from as int, to as int));
    }
    s
}

pub fn ipv6_to_string(a: u128) -> (r: String)
    ensures
        r@ == ipv6_chars(a),
{
    // Find the leftmost longest zero-group run, scanning from the right so
    // that a tie keeps the leftmost candidate.
    let mut best_start: usize = 8;
    let mut best_len: usize = 0;
    let mut k: usize = 8;
    while k > 0
        invariant
            0 <= k <= 8,
            best_start + best_len <= 8,
            (best_start as int, best_len as int) == best_zero_run(a, k as int),
        decreases k,
    {
        k = k - 1;
        let run = zero_run_exec(a, k);
        if run >= best_len {
            best_start = k;
            best_len = run;
        }
    }
    if best_len < 2 {
        ipv6_span_to_string(a, 0, 8)
    } else {
        proof {
            reveal_strlit(":");
        }
        let mut s = ipv6_span_to_string(a, 0, best_start);
        s.append(":");
        s.append(":");
        let rest = ipv6_span_to_string(a, best_start + best_len, 8);
        s.append(rest.as_str());
        proof {
            assert(s@ =~= ipv6_chars(a));
        }
        s
    }
}

/// The rendering of any address.
pub open spec fn ip_chars(a: IpAddress) -> Seq<char> {
    match a {
        IpAddress::V4(v) => ipv4_chars(v),
        IpAddress::V6(v) => ipv6_chars(v),
    }
}

pub fn ip_to_string(a: &IpAddress) -> (r: String)
    ensures
        r@ == ip_chars(*a),
{
    match a {
        IpAddress::V4(v) => ipv4_to_string(*v),
        IpAddress::V6(v) => ipv6_to_string(*v),
    }
}

/// The total order on addresses: every IPv4 address before every IPv6
/// address, numeric within a family.
pub open spec fn ip_le(a: IpAddress, b: IpAddress) -> bool {
    match (a, b) {
        (IpAddress::V4(x), IpAddress::V4(y)) => x <= y,
        (IpAddress::V4(_), IpAddress::V6(_)) => true,
        (IpAddress::V6(_), IpAddress::V4(_)) => false,
        (IpAddress::V6(x), IpAddress::V6(y)) => x <= y,
    }
}

pub fn ip_le_exec(a: &IpAddress, b: &IpAddress) -> (r: bool)
    ensures
        r == ip_le(*a, *b),
{
    match (a, b) {
        (IpAddress::V4(x), IpAddress::V4(y)) => *x <= *y,
        (IpAddress::V4(_), IpAddress::V6(_)) => true,
        (IpAddress::V6(_), IpAddress::V4(_)) => false,
        (IpAddress::V6(x), IpAddress::V6(y)) => *x <= *y,
    }
}

} // verus!
