//! The TLD registry: a static set of recognized top-level-domain labels.
//!
//! The registry is what lets the classifier tell "likely a domain name" from
//! a malformed address: a token whose last dot-separated label matches a
//! registry entry (case-insensitively) is treated as a domain. It holds the
//! common generic and country labels; an unlisted label makes the token a
//! classification failure, a deliberate trade of rare false negatives for a
//! small, auditable list.

use vstd::prelude::*;

use crate::strings::seq_views;

verus! {

/// ASCII lowercasing of one character; everything but `A..=Z` is unchanged.
pub open spec fn lower_char(c: char) -> char {
    match c {
        'A' => 'a',
        'B' => 'b',
        'C' => 'c',
        'D' => 'd',
        'E' => 'e',
        'F' => 'f',
        'G' => 'g',
        'H' => 'h',
        'I' => 'i',
        'J' => 'j',
        'K' => 'k',
        'L' => 'l',
        'M' => 'm',
        'N' => 'n',
        'O' => 'o',
        'P' => 'p',
        'Q' => 'q',
        'R' => 'r',
        'S' => 's',
        'T' => 't',
        'U' => 'u',
        'V' => 'v',
        'W' => 'w',
        'X' => 'x',
        'Y' => 'y',
        'Z' => 'z',
        _ => c,
    }
}

pub fn lower_char_exec(c: char) -> (r: char)
    ensures
        r == lower_char(c),
{
    match c {
        'A' => 'a',
        'B' => 'b',
        'C' => 'c',
        'D' => 'd',
        'E' => 'e',
        'F' => 'f',
        'G' => 'g',
        'H' => 'h',
        'I' => 'i',
        'J' => 'j',
        'K' => 'k',
        'L' => 'l',
        'M' => 'm',
        'N' => 'n',
        'O' => 'o',
        'P' => 'p',
        'Q' => 'q',
        'R' => 'r',
        'S' => 's',
        'T' => 't',
        'U' => 'u',
        'V' => 'v',
        'W' => 'w',
        'X' => 'x',
        'Y' => 'y',
        'Z' => 'z',
        _ => c,
    }
}

/// ASCII lowercasing of a whole sequence.
pub open spec fn lower_seq(s: Seq<char>) -> Seq<char> {
    s.map_values(|c: char| lower_char(c))
}

/// Whether two strings are equal up to ASCII case.
pub fn eq_ignore_ascii_case(a: &str, b: &str) -> (r: bool)
    ensures
        r == (lower_seq(a@) == lower_seq(b@)),
{
    let na = a.unicode_len();
    let nb = b.unicode_len();
    if na != nb {
        proof {
            assert(lower_seq(a@).len() != lower_seq(b@).len());
        }
        return false;
    }
    let mut i: usize = 0;
    while i < na
        invariant
            0 <= i <= na,
            na == a@.len(),
            na == b@.len(),
            forall|j: int| 0 <= j < i ==> lower_char(a@[j]) == lower_char(b@[j]),
        decreases na - i,
    {
        if lower_char_exec(a.get_char(i)) != lower_char_exec(b.get_char(i)) {
            proof {
                assert(lower_seq(a@)[i as int] != lower_seq(b@)[i as int]);
            }
            return false;
        }
        i = i + 1;
    }
    proof {
        assert(lower_seq(a@) =~= lower_seq(b@));
    }
    true
}

/// The registry entries, lowercase, in a fixed published order.
pub open spec fn tld_registry() -> Seq<Seq<char>> {
    seq![
        "com"@,
        "net"@,
        "org"@,
        "edu"@,
        "gov"@,
        "mil"@,
        "int"@,
        "arpa"@,
        "info"@,
        "biz"@,
        "name"@,
        "mobi"@,
        "app"@,
        "dev"@,
        "xyz"@,
        "online"@,
        "site"@,
        "tech"@,
        "store"@,
        "blog"@,
        "cloud"@,
        "ai"@,
        "io"@,
        "me"@,
        "tv"@,
        "cc"@,
        "ws"@,
        "co"@,
        "uk"@,
        "de"@,
        "jp"@,
        "fr"@,
        "au"@,
        "us"@,
        "ru"@,
        "ch"@,
        "it"@,
        "nl"@,
        "se"@,
        "no"@,
        "es"@,
        "cn"@,
        "br"@,
        "in"@,
        "ca"@,
        "mx"@,
        "kr"@,
        "tw"@,
        "hk"@,
        "sg"@,
        "id"@,
        "th"@,
        "vn"@,
        "pl"@,
        "cz"@,
        "at"@,
        "be"@,
        "dk"@,
        "fi"@,
        "gr"@,
        "hu"@,
        "ie"@,
        "il"@,
        "nz"@,
        "pt"@,
        "ro"@,
        "sk"@,
        "tr"@,
        "ua"@,
        "za"@,
        "ar"@,
        "cl"@,
    ]
}

/// The registry as strings, in registry order.
pub fn get_all_tlds() -> (r: Vec<String>)
    ensures
        seq_views(r@) == tld_registry(),
{
    let mut v: Vec<String> = Vec::new();
    v.push(String::from_str("com"));
    v.push(String::from_str("net"));
    v.push(String::from_str("org"));
    v.push(String::from_str("edu"));
    v.push(String::from_str("gov"));
    v.push(String::from_str("mil"));
    v.push(String::from_str("int"));
    v.push(String::from_str("arpa"));
    v.push(String::from_str("info"));
    v.push(String::from_str("biz"));
    v.push(String::from_str("name"));
    v.push(String::from_str("mobi"));
    v.push(String::from_str("app"));
    v.push(String::from_str("dev"));
    v.push(String::from_str("xyz"));
    v.push(String::from_str("online"));
    v.push(String::from_str("site"));
    v.push(String::from_str("tech"));
    v.push(String::from_str("store"));
    v.push(String::from_str("blog"));
    v.push(String::from_str("cloud"));
    v.push(String::from_str("ai"));
    v.push(String::from_str("io"));
    v.push(String::from_str("me"));
    v.push(String::from_str("tv"));
    v.push(String::from_str("cc"));
    v.push(String::from_str("ws"));
    v.push(String::from_str("co"));
    v.push(String::from_str("uk"));
    v.push(String::from_str("de"));
    v.push(String::from_str("jp"));
    v.push(String::from_str("fr"));
    v.push(String::from_str("au"));
    v.push(String::from_str("us"));
    v.push(String::from_str("ru"));
    v.push(String::from_str("ch"));
    v.push(String::from_str("it"));
    v.push(String::from_str("nl"));
    v.push(String::from_str("se"));
    v.push(String::from_str("no"));
    v.push(String::from_str("es"));
    v.push(String::from_str("cn"));
    v.push(String::from_str("br"));
    v.push(String::from_str("in"));
    v.push(String::from_str("ca"));
    v.push(String::from_str("mx"));
    v.push(String::from_str("kr"));
    v.push(String::from_str("tw"));
    v.push(String::from_str("hk"));
    v.push(String::from_str("sg"));
    v.push(String::from_str("id"));
    v.push(String::from_str("th"));
    v.push(String::from_str("vn"));
    v.push(String::from_str("pl"));
    v.push(String::from_str("cz"));
    v.push(String::from_str("at"));
    v.push(String::from_str("be"));
    v.push(String::from_str("dk"));
    v.push(String::from_str("fi"));
    v.push(String::from_str("gr"));
    v.push(String::from_str("hu"));
    v.push(String::from_str("ie"));
    v.push(String::from_str("il"));
    v.push(String::from_str("nz"));
    v.push(String::from_str("pt"));
    v.push(String::from_str("ro"));
    v.push(String::from_str("sk"));
    v.push(String::from_str("tr"));
    v.push(String::from_str("ua"));
    v.push(String::from_str("za"));
    v.push(String::from_str("ar"));
    v.push(String::from_str("cl"));
    proof {
        assert(seq_views(v@) =~= tld_registry());
    }
    v
}

/// Whether a label matches some registry entry, ignoring ASCII case.
pub open spec fn tld_matches(t: Seq<char>) -> bool {
    exists|k: int|
        0 <= k < tld_registry().len() && lower_seq(t) == lower_seq(#[trigger] tld_registry()[k])
}

pub fn is_recognized_tld(t: &str) -> (r: bool)
    ensures
        r == tld_matches(t@),
{
    let tlds = get_all_tlds();
    let mut k: usize = 0;
    while k < tlds.len()
        invariant
            0 <= k <= tlds@.len(),
            seq_views(tlds@) == tld_registry(),
            forall|j: int|
                0 <= j < k ==> lower_seq(t@) != lower_seq(#[trigger] tld_registry()[j]),
        decreases tlds@.len() - k,
    {
        proof {
            assert(tld_registry()[k as int] == tlds@[k as int]@);
        }
        if eq_ignore_ascii_case(t, tlds[k].as_str()) {
            return true;
        }
        k = k + 1;
    }
    false
}

} // verus!
