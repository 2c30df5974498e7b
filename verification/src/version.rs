//! NixOS releases: their `YY.MM` spelling and their order.

use crate::text::{
    lemma_order_goes_by_first_difference, lex_before, push_str, DOT, NINE, ZERO,
};
use std::cmp::Ordering;
use vstd::prelude::*;
use vstd::std_specs::cmp::PartialOrdSpec;
use vstd::string::*;
use vstd::utf8::*;

verus! {

/// A NixOS release, always `YY.MM` with `MM` of `05` or `11` in practice.
#[derive(Debug, Hash, Clone, Copy, PartialEq, Eq, Structural, Ord)]
pub struct Version {
    pub year: u8,
    pub month: u8,
}

/// An ASCII decimal digit.
pub open spec fn is_digit(b: u8) -> bool {
    ZERO <= b <= NINE
}

/// The number that two ASCII digits spell.
pub open spec fn two_digits(tens: u8, ones: u8) -> u8 {
    ((tens - ZERO) * 10 + (ones - ZERO)) as u8
}

/// The release that `b` spells as exactly `dd.dd`, if it does.
pub open spec fn parse_bytes(b: Seq<u8>) -> Option<Version> {
    if b.len() == 5 && is_digit(b[0]) && is_digit(b[1]) && b[2] == DOT && is_digit(b[3])
        && is_digit(b[4]) {
        Some(Version { year: two_digits(b[0], b[1]), month: two_digits(b[3], b[4]) })
    } else {
        None
    }
}

/// `n` in decimal, padded with a zero to two digits.
pub open spec fn padded(n: u8) -> Seq<u8> {
    let ones = (ZERO + n % 10) as u8;
    let tens = (ZERO + n / 10 % 10) as u8;
    if n < 100 {
        seq![tens, ones]
    } else {
        seq![(ZERO + n / 100) as u8, tens, ones]
    }
}

impl Version {
    /// Both numbers have at most two digits, as in every release that text can spell.
    pub open spec fn spellable(self) -> bool {
        self.year < 100 && self.month < 100
    }

    /// The chronological order of releases.
    pub open spec fn before(self, other: Version) -> bool {
        self.year < other.year || (self.year == other.year && self.month < other.month)
    }

    /// The spelling of a release.
    pub open spec fn spelled(self) -> Seq<u8> {
        padded(self.year) + seq![DOT] + padded(self.month)
    }

    /// Parses exactly `dd.dd`. The strict length is what rejects a whole
    /// `25.05-small`: a caller that wants the release in front of a suffix
    /// hands over the five bytes alone.
    pub fn parse(s: &str) -> (r: Option<Version>)
        ensures
            r == parse_bytes(encode_utf8(s@)),
    {
        parse_at(s.as_bytes(), 0, s.as_bytes().len())
    }

    /// The release as `YY.MM`.
    pub fn to_string(&self) -> (r: String)
        ensures
            encode_utf8(r@) == self.spelled(),
    {
        let mut out: String = String::new();
        push_padded(&mut out, self.year);
        proof {
            reveal_strlit(".");
            is_ascii_chars_encode_utf8("."@);
            assert(encode_utf8("."@) =~= seq![DOT]);
        }
        push_str(&mut out, ".");
        push_padded(&mut out, self.month);
        assert(encode_utf8(out@) =~= self.spelled());
        out
    }
}

impl PartialOrd for Version {
    fn partial_cmp(&self, other: &Version) -> (r: Option<Ordering>) {
        if self.year < other.year {
            Some(Ordering::Less)
        } else if self.year > other.year {
            Some(Ordering::Greater)
        } else if self.month < other.month {
            Some(Ordering::Less)
        } else if self.month > other.month {
            Some(Ordering::Greater)
        } else {
            Some(Ordering::Equal)
        }
    }
}

impl vstd::std_specs::cmp::PartialOrdSpecImpl for Version {
    open spec fn obeys_partial_cmp_spec() -> bool {
        true
    }

    open spec fn partial_cmp_spec(&self, other: &Version) -> Option<Ordering> {
        if self.before(*other) {
            Some(Ordering::Less)
        } else if other.before(*self) {
            Some(Ordering::Greater)
        } else {
            Some(Ordering::Equal)
        }
    }
}

/// The release that `bytes[from..to]` spells, if it does.
pub(crate) fn parse_at(bytes: &[u8], from: usize, to: usize) -> (r: Option<Version>)
    requires
        from <= to <= bytes@.len(),
    ensures
        r == parse_bytes(bytes@.subrange(from as int, to as int)),
{
    if to - from != 5 || bytes[from + 2] != DOT {
        return None;
    }
    let mut i: usize = 0;
    while i < 5
        invariant
            i <= 5,
            to - from == 5,
            to <= bytes@.len(),
            forall|k: int| 0 <= k < i && k != 2 ==> is_digit(#[trigger] bytes@[from + k]),
        decreases 5 - i,
    {
        let c: u8 = bytes[from + i];
        if i != 2 && !(ZERO <= c && c <= NINE) {
            assert(bytes@.subrange(from as int, to as int)[i as int] == c);
            return None;
        }
        i = i + 1;
    }
    assert(is_digit(bytes@[from + 0]) && is_digit(bytes@[from + 1]) && is_digit(bytes@[from + 3])
        && is_digit(bytes@[from + 4]));
    Some(
        Version {
            year: (bytes[from] - ZERO) * 10 + (bytes[from + 1] - ZERO),
            month: (bytes[from + 3] - ZERO) * 10 + (bytes[from + 4] - ZERO),
        },
    )
}

/// One decimal digit as text.
fn digit(d: u8) -> (s: &'static str)
    requires
        d < 10,
    ensures
        encode_utf8(s@) == seq![(ZERO + d) as u8],
{
    proof {
        reveal_strlit("0");
        reveal_strlit("1");
        reveal_strlit("2");
        reveal_strlit("3");
        reveal_strlit("4");
        reveal_strlit("5");
        reveal_strlit("6");
        reveal_strlit("7");
        reveal_strlit("8");
        reveal_strlit("9");
    }
    let s: &'static str = if d == 0 {
        "0"
    } else if d == 1 {
        "1"
    } else if d == 2 {
        "2"
    } else if d == 3 {
        "3"
    } else if d == 4 {
        "4"
    } else if d == 5 {
        "5"
    } else if d == 6 {
        "6"
    } else if d == 7 {
        "7"
    } else if d == 8 {
        "8"
    } else {
        "9"
    };
    proof {
        is_ascii_chars_encode_utf8(s@);
        assert(encode_utf8(s@) =~= seq![(ZERO + d) as u8]);
    }
    s
}

/// Appends `n`, padded with a zero to two digits.
fn push_padded(out: &mut String, n: u8)
    ensures
        encode_utf8(final(out)@) == encode_utf8(old(out)@) + padded(n),
{
    let ghost before = encode_utf8(out@);
    if n >= 100 {
        push_str(out, digit(n / 100));
    }
    push_str(out, digit(n / 10 % 10));
    push_str(out, digit(n % 10));
    assert(encode_utf8(out@) =~= before + padded(n));
}

/// Reads a release the way a command line gives it, with the message that a
/// usage error shows.
pub fn parse_version(s: &str) -> (r: Result<Version, String>)
    ensures
        match parse_bytes(encode_utf8(s@)) {
            Some(v) => r == Ok::<Version, String>(v),
            None => r matches Err(message) && message@ == "'"@ + s@
                + "' is not of the form XX.YY"@,
        },
{
    match Version::parse(s) {
        Some(v) => Ok(v),
        None => {
            let mut message: String = String::new();
            push_str(&mut message, "'");
            push_str(&mut message, s);
            push_str(&mut message, "' is not of the form XX.YY");
            assert(message@ =~= "'"@ + s@ + "' is not of the form XX.YY"@);
            Err(message)
        },
    }
}

/// Reading a spelled release gives it back.
pub proof fn lemma_parse_spelled(v: Version)
    requires
        v.spellable(),
    ensures
        v.spelled().len() == 5,
        parse_bytes(v.spelled()) == Some(v),
{
}

/// What reads as a release is its spelling.
pub proof fn lemma_spelled_parse(b: Seq<u8>)
    ensures
        parse_bytes(b) matches Some(v) ==> v.spellable() && v.spelled() == b,
{
    if parse_bytes(b) is Some {
        assert(parse_bytes(b)->0.spelled() =~= b);
    }
}

/// Spelled releases sort as text the way releases do in time.
pub proof fn lemma_spelled_order(a: Version, b: Version)
    requires
        a.spellable(),
        b.spellable(),
    ensures
        lex_before(a.spelled(), b.spelled()) <==> a.before(b),
{
    lemma_spells_two_numbers(a);
    lemma_spells_two_numbers(b);
    let x = a.spelled();
    let y = b.spelled();
    let k: int = if x[0] != y[0] {
        0
    } else if x[1] != y[1] {
        1
    } else if x[3] != y[3] {
        3
    } else if x[4] != y[4] {
        4
    } else {
        5
    };
    assert(x[2] == y[2]);
    assert(x.subrange(0, k) =~= y.subrange(0, k));
    lemma_order_goes_by_first_difference(x, y, k);
}

/// The digits of a padded number.
proof fn lemma_padded_digits(n: u8)
    ensures
        ({
            let p = padded(n);
            &&& p.len() == if n < 100 {
                2int
            } else {
                3
            }
            &&& forall|i: int| 0 <= i < p.len() ==> 0x30 <= #[trigger] p[i] <= 0x39
            &&& n < 100 ==> n == 10 * (p[0] - 0x30) + (p[1] - 0x30)
            &&& n >= 100 ==> n == 100 * (p[0] - 0x30) + 10 * (p[1] - 0x30) + (p[2] - 0x30)
        }),
{
    let p = padded(n);
    assert(n / 100 < 10 && n / 10 % 10 < 10 && n % 10 < 10);
    if n < 100 {
        assert(p =~= seq![(ZERO + n / 10) as u8, (ZERO + n % 10) as u8]);
    } else {
        assert(n == 100 * (n / 100) + 10 * (n / 10 % 10) + n % 10);
    }
}

/// A release reads as two decimal numbers of two digits each with a dot
/// between them, and nothing else does.
pub proof fn lemma_reads_two_numbers(b: Seq<u8>, v: Version)
    ensures
        parse_bytes(b) == Some(v) <==> {
            &&& b.len() == 5
            &&& 0x30 <= b[0] <= 0x39 && 0x30 <= b[1] <= 0x39
            &&& b[2] == 0x2e
            &&& 0x30 <= b[3] <= 0x39 && 0x30 <= b[4] <= 0x39
            &&& v.year == 10 * (b[0] - 0x30) + (b[1] - 0x30)
            &&& v.month == 10 * (b[3] - 0x30) + (b[4] - 0x30)
        },
{
}

/// A release is spelled as two decimal numbers with a dot between them, each
/// of two digits, or of three from a hundred on.
pub proof fn lemma_spells_two_numbers(v: Version)
    ensures
        ({
            let s = v.spelled();
            let n: int = if v.year < 100 {
                2
            } else {
                3
            };
            let m: int = if v.month < 100 {
                2
            } else {
                3
            };
            &&& s.len() == n + 1 + m
            &&& s[n] == 0x2e
            &&& forall|i: int| 0 <= i < s.len() && i != n ==> 0x30 <= #[trigger] s[i] <= 0x39
            &&& v.year == 10 * (s[n - 2] - 0x30) + (s[n - 1] - 0x30) + if n == 3 {
                100 * (s[0] - 0x30)
            } else {
                0
            }
            &&& v.month == 10 * (s[n + m - 1] - 0x30) + (s[n + m] - 0x30) + if m == 3 {
                100 * (s[n + 1] - 0x30)
            } else {
                0
            }
        }),
{
    let s = v.spelled();
    let y = padded(v.year);
    let m = padded(v.month);
    lemma_padded_digits(v.year);
    lemma_padded_digits(v.month);
    assert(s == y + seq![DOT] + m);
    let n = y.len() as int;
    assert(s[n] == DOT);
    assert(s.subrange(0, n) =~= y);
    assert(s.subrange(n + 1, s.len() as int) =~= m);
    assert forall|i: int| 0 <= i < s.len() && i != n implies 0x30 <= #[trigger] s[i] <= 0x39 by {
        if i < n {
            assert(s[i] == y[i]);
        } else {
            assert(s[i] == m[i - n - 1]);
        }
    }
    assert(s[0] == y[0] && s[1] == y[1] && s[n + 1] == m[0] && s[n + 2] == m[1]);
    assert(n == 3 ==> s[2] == y[2]);
    assert(m.len() == 3 ==> s[n + 3] == m[2]);
}

/// Releases are ordered by year, and within a year by month; `<`, `==` and `>`
/// say so too.
pub proof fn lemma_ordered_by_year_and_month(a: Version, b: Version)
    ensures
        a.before(b) <==> 256 * a.year + a.month < 256 * b.year + b.month,
        a.partial_cmp_spec(&b) == if 256 * a.year + a.month < 256 * b.year + b.month {
            Some(Ordering::Less)
        } else if a == b {
            Some(Ordering::Equal)
        } else {
            Some(Ordering::Greater)
        },
{
}

} // verus!
