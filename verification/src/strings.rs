//! Character and string helpers shared by the parsers and the renderer.
//!
//! All tokens this tool consumes (addresses, port expressions) and all report
//! text it produces are plain ASCII, so the helpers work character by
//! character over `Seq<char>` views.

use vstd::prelude::*;

verus! {

/// ASCII whitespace, the only whitespace the resolver trims.
pub open spec fn is_space(c: char) -> bool {
    c == ' ' || c == '\t' || c == '\r' || c == '\n'
}

pub fn is_space_exec(c: char) -> (r: bool)
    ensures
        r == is_space(c),
{
    c == ' ' || c == '\t' || c == '\r' || c == '\n'
}

pub open spec fn is_digit(c: char) -> bool {
    48 <= c as u32 <= 57
}

pub fn is_digit_exec(c: char) -> (r: bool)
    ensures
        r == is_digit(c),
{
    let u = c as u32;
    48 <= u && u <= 57
}

/// Numeric value of a decimal digit.
pub open spec fn digit_of(c: char) -> int {
    c as u32 - 48
}

pub fn digit_of_exec(c: char) -> (r: u32)
    requires
        is_digit(c),
    ensures
        r == digit_of(c),
        r <= 9,
{
    c as u32 - 48
}

/// Index of the first character that is not ASCII whitespace (the sequence's
/// length when every character is whitespace).
pub open spec fn trim_start_at(s: Seq<char>) -> int
    decreases s.len(),
{
    if s.len() == 0 {
        0
    } else if !is_space(s[0]) {
        0
    } else {
        1 + trim_start_at(s.drop_first())
    }
}

/// One past the index of the last character that is not ASCII whitespace
/// (zero when every character is whitespace).
pub open spec fn trim_end_at(s: Seq<char>) -> int
    decreases s.len(),
{
    if s.len() == 0 {
        0
    } else if !is_space(s.last()) {
        s.len() as int
    } else {
        trim_end_at(s.drop_last())
    }
}

/// The sequence with leading and trailing ASCII whitespace removed.
pub open spec fn trim_spec(s: Seq<char>) -> Seq<char> {
    if trim_start_at(s) < trim_end_at(s) {
        s.subrange(trim_start_at(s), trim_end_at(s))
    } else {
        Seq::empty()
    }
}

/// `trim_start_at` is the unique index `v` with only whitespace before `v`
/// and a non-whitespace character (or the end) at `v`.
pub proof fn lemma_trim_start_at(s: Seq<char>)
    ensures
        0 <= trim_start_at(s) <= s.len(),
        forall|j: int| 0 <= j < trim_start_at(s) ==> is_space(s[j]),
        trim_start_at(s) < s.len() ==> !is_space(s[trim_start_at(s)]),
    decreases s.len(),
{
    if s.len() > 0 && is_space(s[0]) {
        lemma_trim_start_at(s.drop_first());
        assert forall|j: int| 0 <= j < trim_start_at(s) implies is_space(s[j]) by {
            if j > 0 {
                assert(is_space(s.drop_first()[j - 1]));
            }
        }
    }
}

/// `trim_end_at` is the unique index `v` with only whitespace from `v` on
/// and a non-whitespace character (or the start) just before `v`.
pub proof fn lemma_trim_end_at(s: Seq<char>)
    ensures
        0 <= trim_end_at(s) <= s.len(),
        forall|j: int| trim_end_at(s) <= j < s.len() ==> is_space(s[j]),
        trim_end_at(s) > 0 ==> !is_space(s[trim_end_at(s) - 1]),
    decreases s.len(),
{
    if s.len() > 0 && is_space(s.last()) {
        lemma_trim_end_at(s.drop_last());
        assert forall|j: int| trim_end_at(s) <= j < s.len() implies is_space(s[j]) by {
            if j < s.len() - 1 {
                assert(is_space(s.drop_last()[j]));
            } else {
                assert(s[j] == s.last());
            }
        }
    }
}

/// Removes leading and trailing ASCII whitespace.
pub fn trim_str(s: &str) -> (r: String)
    ensures
        r@ == trim_spec(s@),
{
    proof {
        lemma_trim_start_at(s@);
        lemma_trim_end_at(s@);
    }
    let n = s.unicode_len();
    let mut lo: usize = 0;
    while lo < n && is_space_exec(s.get_char(lo))
        invariant
            0 <= lo <= n,
            n == s@.len(),
            forall|j: int| 0 <= j < lo ==> is_space(s@[j]),
        decreases n - lo,
    {
        lo = lo + 1;
    }
    proof {
        // lo satisfies the characterization of trim_start_at, which is unique.
        if lo < trim_start_at(s@) {
            assert(is_space(s@[lo as int]));
        }
        if trim_start_at(s@) < lo {
            assert(is_space(s@[trim_start_at(s@)]));
        }
        assert(lo == trim_start_at(s@));
    }
    if lo == n {
        proof {
            if trim_end_at(s@) > lo {
                assert(!is_space(s@[trim_end_at(s@) - 1]));
                assert(is_space(s@[trim_end_at(s@) - 1]));
            }
        }
        return String::new();
    }
    let mut hi: usize = n;
    while hi > 0 && is_space_exec(s.get_char(hi - 1))
        invariant
            0 <= hi <= n,
            n == s@.len(),
            forall|j: int| hi <= j < n ==> is_space(s@[j]),
        decreases hi,
    {
        hi = hi - 1;
    }
    proof {
        if hi < trim_end_at(s@) {
            assert(is_space(s@[trim_end_at(s@) - 1]));
        }
        if trim_end_at(s@) < hi {
            assert(is_space(s@[hi - 1]));
        }
        assert(hi == trim_end_at(s@));
        // s[lo] is not whitespace, so lo lies below hi.
        assert(!is_space(s@[lo as int]));
        assert(lo < hi);
    }
    let part = s.substring_char(lo, hi);
    String::from_str(part)
}

/// The segments of `s` between occurrences of `sep`, in order. Splitting the
/// empty sequence gives one empty segment, as `str::split` does.
pub open spec fn split_on(s: Seq<char>, sep: char) -> Seq<Seq<char>>
    decreases s.len(),
{
    if s.len() == 0 {
        seq![Seq::<char>::empty()]
    } else if s[0] == sep {
        seq![Seq::<char>::empty()] + split_on(s.drop_first(), sep)
    } else {
        let rest = split_on(s.drop_first(), sep);
        seq![seq![s[0]] + rest[0]] + rest.drop_first()
    }
}

pub proof fn lemma_split_on_len(s: Seq<char>, sep: char)
    ensures
        split_on(s, sep).len() >= 1,
    decreases s.len(),
{
    if s.len() > 0 {
        lemma_split_on_len(s.drop_first(), sep);
    }
}

/// The views of a vector of strings.
pub open spec fn seq_views(v: Seq<String>) -> Seq<Seq<char>> {
    v.map_values(|x: String| x@)
}

/// Splits `s` at every occurrence of `sep`, keeping empty segments.
pub fn split_char(s: &str, sep: char) -> (r: Vec<String>)
    ensures
        seq_views(r@) == split_on(s@, sep),
{
    let n = s.unicode_len();
    let mut done: Vec<String> = Vec::new();
    let mut start: usize = 0;
    let mut i: usize = 0;
    proof {
        lemma_split_on_len(s@, sep);
        assert(s@.skip(0) =~= s@);
        assert(s@.subrange(0, 0) + split_on(s@, sep)[0] =~= split_on(s@, sep)[0]);
        assert(seq_views(done@) + seq![split_on(s@, sep)[0]] + split_on(s@, sep).drop_first() =~= split_on(s@, sep));
    }
    while i < n
        invariant
            0 <= start <= i <= n,
            n == s@.len(),
            split_on(s@, sep) == seq_views(done@) + seq![s@.subrange(start as int, i as int) + split_on(s@.skip(i as int), sep)[0]] + split_on(s@.skip(i as int), sep).drop_first(),
        decreases n - i,
    {
        proof {
            lemma_split_on_len(s@.skip(i as int), sep);
            lemma_split_on_len(s@.skip(i + 1int), sep);
            assert(s@.skip(i as int).drop_first() =~= s@.skip(i + 1int));
            assert(s@.skip(i as int)[0] == s@[i as int]);
        }
        let c = s.get_char(i);
        if c == sep {
            let part = s.substring_char(start, i);
            done.push(String::from_str(part));
            proof {
                let rest = split_on(s@.skip(i + 1int), sep);
                assert(split_on(s@.skip(i as int), sep) =~= seq![Seq::<char>::empty()] + rest);
                assert(s@.subrange(start as int, i as int) + Seq::<char>::empty() =~= s@.subrange(start as int, i as int));
                assert(seq_views(done@) =~= seq_views(done@.drop_last()).push(s@.subrange(start as int, i as int)));
                assert(seq_views(done@) + seq![s@.subrange(i + 1int, i + 1int) + rest[0]] + rest.drop_first() =~= split_on(s@, sep));
            }
            start = i + 1;
        } else {
            proof {
                let rest = split_on(s@.skip(i + 1int), sep);
                assert(split_on(s@.skip(i as int), sep) =~= seq![seq![s@[i as int]] + rest[0]] + rest.drop_first());
                assert(s@.subrange(start as int, i + 1int) =~= s@.subrange(start as int, i as int) + seq![s@[i as int]]);
                assert(s@.subrange(start as int, i as int) + (seq![s@[i as int]] + rest[0]) =~= s@.subrange(start as int, i + 1int) + rest[0]);
                assert(seq_views(done@) + seq![s@.subrange(start as int, i + 1int) + rest[0]] + rest.drop_first() =~= split_on(s@, sep));
            }
        }
        i = i + 1;
    }
    let part = s.substring_char(start, n);
    done.push(String::from_str(part));
    proof {
        assert(s@.skip(n as int) =~= Seq::<char>::empty());
        assert(split_on(s@.skip(n as int), sep) =~= seq![Seq::<char>::empty()]);
        assert(s@.subrange(start as int, n as int) + Seq::<char>::empty() =~= s@.subrange(start as int, n as int));
        assert(seq_views(done@) =~= seq_views(done@.drop_last()).push(s@.subrange(start as int, n as int)));
        assert(seq_views(done@) =~= split_on(s@, sep));
    }
    done
}

/// `split_on`, with every segment trimmed and empty segments dropped: the way
/// the resolver reads comma lists and range expressions.
pub open spec fn clean_segments(s: Seq<char>, sep: char) -> Seq<Seq<char>> {
    split_on(s, sep).map_values(|t: Seq<char>| trim_spec(t)).filter(|t: Seq<char>| t.len() > 0)
}

/// Splits at `sep`, trims each segment, drops segments that trim to nothing.
pub fn clean_split(s: &str, sep: char) -> (r: Vec<String>)
    ensures
        seq_views(r@) == clean_segments(s@, sep),
{
    let raw = split_char(s, sep);
    let mut out: Vec<String> = Vec::new();
    let ghost trimmed = split_on(s@, sep).map_values(|t: Seq<char>| trim_spec(t));
    let ghost keep = |t: Seq<char>| t.len() > 0;
    let mut i: usize = 0;
    proof {
        assert(trimmed.take(0) =~= Seq::<Seq<char>>::empty());
        assert(trimmed.take(0).filter(keep) =~= Seq::<Seq<char>>::empty());
    }
    while i < raw.len()
        invariant
            0 <= i <= raw.len(),
            seq_views(raw@) == split_on(s@, sep),
            trimmed == split_on(s@, sep).map_values(|t: Seq<char>| trim_spec(t)),
            keep == (|t: Seq<char>| t.len() > 0),
            seq_views(out@) == trimmed.take(i as int).filter(keep),
        decreases raw.len() - i,
    {
        let t = trim_str(raw[i].as_str());
        proof {
            assert(seq_views(raw@)[i as int] == raw@[i as int]@);
            assert(trimmed[i as int] == trim_spec(raw@[i as int]@));
            assert(trimmed.take(i + 1int).drop_last() =~= trimmed.take(i as int));
            assert(trimmed.take(i + 1int).last() == trimmed[i as int]);
            reveal(Seq::filter);
        }
        if t.unicode_len() > 0 {
            out.push(t);
            proof {
                assert(seq_views(out@) =~= seq_views(out@.drop_last()).push(trimmed[i as int]));
                assert(seq_views(out@) =~= trimmed.take(i + 1int).filter(keep));
            }
        } else {
            proof {
                assert(trimmed[i as int].len() == 0);
                assert(seq_views(out@) =~= trimmed.take(i + 1int).filter(keep));
            }
        }
        i = i + 1;
    }
    proof {
        assert(trimmed.take(raw@.len() as int) =~= trimmed);
    }
    out
}

pub open spec fn all_digits(s: Seq<char>) -> bool {
    forall|i: int| 0 <= i < s.len() ==> is_digit(#[trigger] s[i])
}

/// The number a digit string denotes, most significant digit first.
pub open spec fn dec_val(s: Seq<char>) -> int
    decreases s.len(),
{
    if s.len() == 0 {
        0
    } else {
        dec_val(s.drop_last()) * 10 + digit_of(s.last())
    }
}

/// A nonempty digit string whose value is at most `cap` denotes that value;
/// anything else is rejected. Leading zeros are accepted.
pub open spec fn parse_dec_spec(s: Seq<char>, cap: int) -> Option<u32> {
    if s.len() > 0 && all_digits(s) && 0 <= dec_val(s) <= cap {
        Some(dec_val(s) as u32)
    } else {
        None
    }
}

pub proof fn lemma_dec_val_nonneg(s: Seq<char>)
    requires
        all_digits(s),
    ensures
        dec_val(s) >= 0,
    decreases s.len(),
{
    if s.len() > 0 {
        assert(is_digit(s.last()));
        assert(forall|i: int| 0 <= i < s.drop_last().len() ==> is_digit(#[trigger] s.drop_last()[i]));
        lemma_dec_val_nonneg(s.drop_last());
    }
}

/// Reads a decimal number of at most `cap`, where `cap <= 0xFFFF`.
pub fn parse_dec_capped(s: &str, cap: u32) -> (r: Option<u32>)
    requires
        cap <= 0xFFFF,
    ensures
        r == parse_dec_spec(s@, cap as int),
{
    let n = s.unicode_len();
    if n == 0 {
        return None;
    }
    let mut acc: u32 = 0;
    let mut over: bool = false;
    let mut i: usize = 0;
    proof {
        assert(s@.take(0) =~= Seq::<char>::empty());
    }
    while i < n
        invariant
            0 <= i <= n,
            n == s@.len(),
            cap <= 0xFFFF,
            all_digits(s@.take(i as int)),
            !over ==> acc == dec_val(s@.take(i as int)) && acc <= cap,
            over ==> dec_val(s@.take(i as int)) > cap,
        decreases n - i,
    {
        let c = s.get_char(i);
        if !is_digit_exec(c) {
            return None;
        }
        let d = digit_of_exec(c);
        proof {
            assert(s@.take(i + 1int).drop_last() =~= s@.take(i as int));
            assert(s@.take(i + 1int).last() == s@[i as int]);
            assert(forall|j: int| 0 <= j < i + 1 ==> is_digit(#[trigger] s@.take(i + 1int)[j]));
        }
        if over {
            proof {
                lemma_dec_val_nonneg(s@.take(i as int));
            }
        } else {
            let next = acc * 10 + d;
            if next > cap {
                over = true;
            } else {
                acc = next;
            }
        }
        i = i + 1;
    }
    proof {
        assert(s@.take(n as int) =~= s@);
    }
    if over {
        None
    } else {
        Some(acc)
    }
}

pub open spec fn is_hex_digit(c: char) -> bool {
    is_digit(c) || 97 <= c as u32 <= 102 || 65 <= c as u32 <= 70
}

/// Numeric value of a hexadecimal digit (either case).
pub open spec fn hex_digit_of(c: char) -> int {
    if is_digit(c) {
        c as u32 - 48
    } else if 97 <= c as u32 <= 102 {
        c as u32 - 87
    } else {
        c as u32 - 55
    }
}

pub fn is_hex_digit_exec(c: char) -> (r: bool)
    ensures
        r == is_hex_digit(c),
{
    let u = c as u32;
    (48 <= u && u <= 57) || (97 <= u && u <= 102) || (65 <= u && u <= 70)
}

pub fn hex_digit_of_exec(c: char) -> (r: u32)
    requires
        is_hex_digit(c),
    ensures
        r == hex_digit_of(c),
        r <= 15,
{
    let u = c as u32;
    if 48 <= u && u <= 57 {
        u - 48
    } else if 97 <= u && u <= 102 {
        u - 87
    } else {
        u - 55
    }
}

/// The number a hexadecimal digit string denotes.
pub open spec fn hex_val(s: Seq<char>) -> int
    decreases s.len(),
{
    if s.len() == 0 {
        0
    } else {
        hex_val(s.drop_last()) * 16 + hex_digit_of(s.last())
    }
}

pub open spec fn all_hex_digits(s: Seq<char>) -> bool {
    forall|i: int| 0 <= i < s.len() ==> is_hex_digit(#[trigger] s[i])
}

pub proof fn lemma_hex_val_bound(s: Seq<char>)
    requires
        all_hex_digits(s),
        s.len() <= 4,
    ensures
        0 <= hex_val(s) <= 0xFFFF,
        s.len() <= 3 ==> hex_val(s) <= 0xFFF,
        s.len() <= 2 ==> hex_val(s) <= 0xFF,
        s.len() <= 1 ==> hex_val(s) <= 0xF,
    decreases s.len(),
{
    if s.len() > 0 {
        assert(forall|i: int|
            0 <= i < s.drop_last().len() ==> is_hex_digit(#[trigger] s.drop_last()[i]));
        lemma_hex_val_bound(s.drop_last());
        assert(is_hex_digit(s.last()));
        assert(0 <= hex_digit_of(s.last()) <= 15);
    }
}

/// The decimal rendering of `n`, most significant digit first, no leading
/// zeros (a lone zero for zero).
pub open spec fn dec_chars(n: nat) -> Seq<char>
    decreases n,
{
    if n < 10 {
        seq![digit_char(n as int)]
    } else {
        dec_chars(n / 10).push(digit_char((n % 10) as int))
    }
}

pub open spec fn digit_char(d: int) -> char {
    if d == 0 {
        '0'
    } else if d == 1 {
        '1'
    } else if d == 2 {
        '2'
    } else if d == 3 {
        '3'
    } else if d == 4 {
        '4'
    } else if d == 5 {
        '5'
    } else if d == 6 {
        '6'
    } else if d == 7 {
        '7'
    } else if d == 8 {
        '8'
    } else {
        '9'
    }
}

fn digit_str(d: u64) -> (r: &'static str)
    requires
        d < 10,
    ensures
        r@ == seq![digit_char(d as int)],
{
    proof {
        reveal_strlit("0");
        reveal_strlit("1");
        reveal_strlit("2");
        reveal_strlit("3");
        reveal_strlit("4");
        reveal_strlit("5");
        reveal_strlit("6");
        reveal_strlit("7");
        reveal_strlit("8");
        reveal_strlit("9");
    }
    let r = match d {
        0 => "0",
        1 => "1",
        2 => "2",
        3 => "3",
        4 => "4",
        5 => "5",
        6 => "6",
        7 => "7",
        8 => "8",
        _ => "9",
    };
    proof {
        assert(r@ =~= seq![digit_char(d as int)]);
    }
    r
}

/// Renders `n` in decimal.
pub fn u64_to_dec(n: u64) -> (r: String)
    ensures
        r@ == dec_chars(n as nat),
    decreases n,
{
    if n < 10 {
        String::from_str(digit_str(n))
    } else {
        let mut s = u64_to_dec(n / 10);
        s.append(digit_str(n % 10));
        proof {
            assert(s@ =~= dec_chars((n / 10) as nat).push(digit_char((n % 10) as int)));
        }
        s
    }
}

/// The lowercase-hexadecimal rendering of `n`, no leading zeros.
pub open spec fn hex_chars(n: nat) -> Seq<char>
    decreases n,
{
    if n < 16 {
        seq![hex_char(n as int)]
    } else {
        hex_chars(n / 16).push(hex_char((n % 16) as int))
    }
}

pub open spec fn hex_char(d: int) -> char {
    if d < 10 {
        digit_char(d)
    } else if d == 10 {
        'a'
    } else if d == 11 {
        'b'
    } else if d == 12 {
        'c'
    } else if d == 13 {
        'd'
    } else if d == 14 {
        'e'
    } else {
        'f'
    }
}

fn hex_str(d: u64) -> (r: &'static str)
    requires
        d < 16,
    ensures
        r@ == seq![hex_char(d as int)],
{
    if d < 10 {
        digit_str(d)
    } else {
        proof {
            reveal_strlit("a");
            reveal_strlit("b");
            reveal_strlit("c");
            reveal_strlit("d");
            reveal_strlit("e");
            reveal_strlit("f");
        }
        let r = match d {
            10 => "a",
            11 => "b",
            12 => "c",
            13 => "d",
            14 => "e",
            _ => "f",
        };
        proof {
            assert(r@ =~= seq![hex_char(d as int)]);
        }
        r
    }
}

/// Renders `n` in lowercase hexadecimal.
pub fn u64_to_hex(n: u64) -> (r: String)
    ensures
        r@ == hex_chars(n as nat),
    decreases n,
{
    if n < 16 {
        String::from_str(hex_str(n))
    } else {
        let mut s = u64_to_hex(n / 16);
        s.append(hex_str(n % 16));
        proof {
            assert(s@ =~= hex_chars((n / 16) as nat).push(hex_char((n % 16) as int)));
        }
        s
    }
}

} // verus!
