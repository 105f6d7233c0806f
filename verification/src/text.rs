//! Character-sequence utilities: prefix tests, substring search, whitespace
//! trimming, quote stripping, and decimal number parsing, each with a spec
//! model over `Seq<char>` and a verified executable counterpart over `&str`.
use vstd::prelude::*;
use vstd::string::*;

use crate::LineParseError;

verus! {

/// The characters that count as whitespace when trimming: the Unicode
/// `White_Space` set.
pub open spec fn is_space(c: char) -> bool {
    c == ' ' || c == '\t' || c == '\n' || c == '\u{000B}' || c == '\u{000C}' || c == '\r'
        || c == '\u{0085}' || c == '\u{00A0}' || c == '\u{1680}' || c == '\u{2000}'
        || c == '\u{2001}' || c == '\u{2002}' || c == '\u{2003}' || c == '\u{2004}'
        || c == '\u{2005}' || c == '\u{2006}' || c == '\u{2007}' || c == '\u{2008}'
        || c == '\u{2009}' || c == '\u{200A}' || c == '\u{2028}' || c == '\u{2029}'
        || c == '\u{202F}' || c == '\u{205F}' || c == '\u{3000}'
}

fn is_space_char(c: char) -> (r: bool)
    ensures
        r == is_space(c),
{
    c == ' ' || c == '\t' || c == '\n' || c == '\u{000B}' || c == '\u{000C}' || c == '\r'
        || c == '\u{0085}' || c == '\u{00A0}' || c == '\u{1680}' || c == '\u{2000}'
        || c == '\u{2001}' || c == '\u{2002}' || c == '\u{2003}' || c == '\u{2004}'
        || c == '\u{2005}' || c == '\u{2006}' || c == '\u{2007}' || c == '\u{2008}'
        || c == '\u{2009}' || c == '\u{200A}' || c == '\u{2028}' || c == '\u{2029}'
        || c == '\u{202F}' || c == '\u{205F}' || c == '\u{3000}'
}

/// `p` occurs at the front of `s`.
pub open spec fn starts_with(s: Seq<char>, p: Seq<char>) -> bool {
    p.len() <= s.len() && s.take(p.len() as int) == p
}

pub fn str_starts_with(s: &str, p: &str) -> (r: bool)
    ensures
        r == starts_with(s@, p@),
{
    let slen = s.unicode_len();
    let plen = p.unicode_len();
    if plen > slen {
        assert(!starts_with(s@, p@));
        return false;
    }
    let mut i: usize = 0;
    while i < plen
        invariant
            plen <= slen,
            slen == s@.len(),
            plen == p@.len(),
            i <= plen,
            forall|j: int| 0 <= j < i ==> s@[j] == p@[j],
        decreases plen - i,
    {
        if s.get_char(i) != p.get_char(i) {
            assert(s@.take(plen as int)[i as int] != p@[i as int]);
            return false;
        }
        i = i + 1;
    }
    assert(s@.take(plen as int) =~= p@);
    true
}

/// The two strings hold the same characters.
pub fn str_eq(s: &str, p: &str) -> (r: bool)
    ensures
        r == (s@ == p@),
{
    let slen = s.unicode_len();
    let plen = p.unicode_len();
    if slen != plen {
        return false;
    }
    assert(s@.take(plen as int) =~= s@);
    str_starts_with(s, p)
}

/// The first position at which `p` occurs in `s`, if any.
pub open spec fn find_at(s: Seq<char>, p: Seq<char>) -> Option<int>
    decreases s.len(),
{
    if starts_with(s, p) {
        Some(0)
    } else if s.len() == 0 {
        None
    } else {
        match find_at(s.skip(1), p) {
            Some(i) => Some(i + 1),
            None => None,
        }
    }
}

/// A found position carries a match, bounded by the string, and no match
/// stands before it; `None` means no position matches.
pub proof fn lemma_find_at(s: Seq<char>, p: Seq<char>)
    ensures
        match find_at(s, p) {
            Some(i) => 0 <= i && i + p.len() <= s.len() && starts_with(s.skip(i), p)
                && forall|j: int| 0 <= j < i ==> !starts_with(s.skip(j), p),
            None => forall|j: int| 0 <= j <= s.len() ==> !starts_with(s.skip(j), p),
        },
    decreases s.len(),
{
    if starts_with(s, p) {
        assert(s.skip(0) =~= s);
    } else if s.len() == 0 {
        assert(p.len() > 0) by {
            if p.len() == 0 {
                assert(s.take(0) =~= p);
            }
        }
        assert forall|j: int| 0 <= j <= s.len() implies !starts_with(s.skip(j), p) by {
            assert(s.skip(j).len() == 0);
        }
    } else {
        lemma_find_at(s.skip(1), p);
        assert forall|j: int| 1 <= j <= s.len() implies #[trigger] s.skip(j) =~= s.skip(1).skip(
            j - 1,
        ) by {}
        match find_at(s.skip(1), p) {
            Some(i) => {
                assert(s.skip(i + 1) =~= s.skip(1).skip(i));
                assert(s.skip(0) =~= s);
            }
            None => {
                assert(s.skip(0) =~= s);
            }
        }
    }
}

/// Locate the first occurrence of `p` within `s`, by character position.
pub fn find_sub(s: &str, p: &str) -> (r: Option<usize>)
    ensures
        find_at(s@, p@) == match r {
            Some(i) => Some(i as int),
            None => None::<int>,
        },
        r matches Some(i) ==> i + p@.len() <= s@.len(),
{
    let slen = s.unicode_len();
    let plen = p.unicode_len();
    let mut i: usize = 0;
    loop
        invariant
            slen == s@.len(),
            plen == p@.len(),
            i <= slen,
            forall|j: int| 0 <= j < i ==> !starts_with(s@.skip(j), p@),
        decreases slen - i,
    {
        if plen <= slen - i {
            let tail = s.substring_char(i, slen);
            assert(tail@ =~= s@.skip(i as int));
            if str_starts_with(tail, p) {
                proof {
                    lemma_find_at_from(s@, p@, i as int);
                }
                return Some(i);
            }
        } else {
            assert(!starts_with(s@.skip(i as int), p@)) by {
                assert(s@.skip(i as int).len() == slen - i);
            }
        }
        if i == slen {
            proof {
                lemma_find_at(s@, p@);
            }
            return None;
        }
        i = i + 1;
    }
}

/// When every position before `from` fails to match and `from` matches,
/// the first match stands exactly at `from`.
pub proof fn lemma_find_at_from(s: Seq<char>, p: Seq<char>, from: int)
    requires
        0 <= from <= s.len(),
        starts_with(s.skip(from), p),
        forall|j: int| 0 <= j < from ==> !starts_with(s.skip(j), p),
    ensures
        find_at(s, p) == Some(from),
{
    lemma_find_at(s, p);
    match find_at(s, p) {
        Some(i) => {
            if i < from {
                assert(starts_with(s.skip(i), p));
            } else if i > from {
                assert(!starts_with(s.skip(from), p));
            }
        }
        None => {
            assert(!starts_with(s.skip(from), p));
        }
    }
}

/// `s` without its leading whitespace.
pub open spec fn trim_front(s: Seq<char>) -> Seq<char>
    decreases s.len(),
{
    if s.len() > 0 && is_space(s[0]) {
        trim_front(s.skip(1))
    } else {
        s
    }
}

/// `s` without its trailing whitespace.
pub open spec fn trim_back(s: Seq<char>) -> Seq<char>
    decreases s.len(),
{
    if s.len() > 0 && is_space(s[s.len() - 1]) {
        trim_back(s.take(s.len() - 1))
    } else {
        s
    }
}

/// `s` without leading and trailing whitespace.
pub open spec fn trimmed(s: Seq<char>) -> Seq<char> {
    trim_back(trim_front(s))
}

/// Dropping `b` leading whitespace characters reaches `trim_front` once a
/// non-space character (or the end) stands at `b`.
proof fn lemma_trim_front_skip(s: Seq<char>, b: int)
    requires
        0 <= b <= s.len(),
        forall|j: int| 0 <= j < b ==> is_space(s[j]),
        b == s.len() || !is_space(s[b]),
    ensures
        trim_front(s) == s.skip(b),
    decreases b,
{
    if b == 0 {
        assert(s.skip(0) =~= s);
    } else {
        lemma_trim_front_skip(s.skip(1), b - 1);
        assert(s.skip(1).skip(b - 1) =~= s.skip(b));
    }
}

/// Keeping `e` characters reaches `trim_back` once a non-space character
/// (or the start) stands just before `e`.
proof fn lemma_trim_back_take(s: Seq<char>, e: int)
    requires
        0 <= e <= s.len(),
        forall|j: int| e <= j < s.len() ==> is_space(s[j]),
        e == 0 || !is_space(s[e - 1]),
    ensures
        trim_back(s) == s.take(e),
    decreases s.len(),
{
    if e == s.len() {
        assert(s.take(e) =~= s);
    } else {
        lemma_trim_back_take(s.take(s.len() - 1), e);
        assert(s.take(s.len() - 1).take(e) =~= s.take(e));
    }
}

/// Trimming leaves text unchanged when neither end carries whitespace.
pub proof fn lemma_trim_identity(s: Seq<char>)
    requires
        s.len() > 0,
        !is_space(s[0]),
        !is_space(s[s.len() - 1]),
    ensures
        trimmed(s) == s,
{
    lemma_trim_front_skip(s, 0);
    assert(s.skip(0) =~= s);
    lemma_trim_back_take(s, s.len() as int);
    assert(s.take(s.len() as int) =~= s);
}

/// Remove leading and trailing whitespace.
pub fn trim(s: &str) -> (r: &str)
    ensures
        r@ == trimmed(s@),
{
    let len = s.unicode_len();
    let mut b: usize = 0;
    while b < len && is_space_char(s.get_char(b))
        invariant
            len == s@.len(),
            b <= len,
            forall|j: int| 0 <= j < b ==> is_space(s@[j]),
        decreases len - b,
    {
        b = b + 1;
    }
    proof {
        lemma_trim_front_skip(s@, b as int);
    }
    if b == len {
        let r = s.substring_char(len, len);
        assert(r@ =~= trimmed(s@));
        return r;
    }
    let mut e: usize = len;
    while e > b && is_space_char(s.get_char(e - 1))
        invariant
            len == s@.len(),
            b < len,
            !is_space(s@[b as int]),
            b <= e <= len,
            forall|j: int| e <= j < len ==> is_space(s@[j]),
        decreases e,
    {
        e = e - 1;
    }
    proof {
        assert(trim_front(s@) == s@.skip(b as int));
        let t = s@.skip(b as int);
        assert forall|j: int| e - b <= j < t.len() implies is_space(t[j]) by {}
        assert(!is_space(t[(e - b - 1) as int]));
        lemma_trim_back_take(t, e - b);
        assert(t.take(e - b) =~= s@.subrange(b as int, e as int));
    }
    s.substring_char(b, e)
}

/// Strip one outer pair of double quotes, when both ends carry one.
pub open spec fn strip_quotes(s: Seq<char>) -> Seq<char> {
    if s.len() >= 2 && s[0] == '"' && s[s.len() - 1] == '"' {
        s.subrange(1, s.len() - 1)
    } else {
        s
    }
}

/// `c` is a decimal digit.
pub open spec fn is_digit(c: char) -> bool {
    48 <= c as int <= 57
}

/// The numeric value of a decimal digit.
pub open spec fn digit(c: char) -> int {
    c as int - 48
}

/// Fold the digits of `s` left to right onto the accumulator `acc`,
/// stopping at the first character that is not a digit and at the first
/// value beyond `usize::MAX`.
pub open spec fn scan_digits(s: Seq<char>, acc: int) -> Result<int, LineParseError>
    decreases s.len(),
{
    if s.len() == 0 {
        Ok(acc)
    } else if !is_digit(s[0]) {
        Err(LineParseError::InvalidDigit)
    } else if acc * 10 + digit(s[0]) > usize::MAX as int {
        Err(LineParseError::Overflow)
    } else {
        scan_digits(s.skip(1), acc * 10 + digit(s[0]))
    }
}

/// Parse `s` as a non-negative decimal integer: an optional leading `+`,
/// then one or more digits, within the range of `usize`.
pub open spec fn parse_num(s: Seq<char>) -> Result<int, LineParseError> {
    if s.len() == 0 {
        Err(LineParseError::Empty)
    } else {
        let body = if s[0] == '+' {
            s.skip(1)
        } else {
            s
        };
        if body.len() == 0 {
            Err(LineParseError::InvalidDigit)
        } else {
            scan_digits(body, 0)
        }
    }
}

/// Parse a non-negative decimal integer from `s`.
pub fn parse_usize(s: &str) -> (r: Result<usize, LineParseError>)
    ensures
        match r {
            Ok(n) => parse_num(s@) == Ok::<int, LineParseError>(n as int),
            Err(e) => parse_num(s@) == Err::<int, LineParseError>(e),
        },
{
    let len = s.unicode_len();
    if len == 0 {
        return Err(LineParseError::Empty);
    }
    let start: usize = if s.get_char(0) == '+' {
        1
    } else {
        0
    };
    if start == len {
        return Err(LineParseError::InvalidDigit);
    }
    let ghost body = if s@[0] == '+' {
        s@.skip(1)
    } else {
        s@
    };
    proof {
        assert(body.skip(0) =~= body);
    }
    let mut n: usize = 0;
    let mut i: usize = start;
    while i < len
        invariant
            len == s@.len(),
            start <= 1 <= len,
            (start == 1) == (s@[0] == '+'),
            body == if s@[0] == '+' { s@.skip(1) } else { s@ },
            start <= i <= len,
            body.len() == len - start,
            scan_digits(body, 0) == scan_digits(body.skip(i - start), n as int),
        decreases len - i,
    {
        proof {
            assert(body.skip(i - start)[0] == s@[i as int]);
            assert(body.skip(i - start).skip(1) =~= body.skip(i + 1 - start));
        }
        let c = s.get_char(i);
        let d = c as u32;
        if d < 48 || d > 57 {
            return Err(LineParseError::InvalidDigit);
        }
        let wide: u128 = n as u128 * 10 + (d - 48) as u128;
        if wide > usize::MAX as u128 {
            return Err(LineParseError::Overflow);
        }
        n = wide as usize;
        i = i + 1;
    }
    proof {
        assert(body.skip(i - start).len() == 0);
        assert(scan_digits(body.skip(i - start), n as int) == Ok::<int, LineParseError>(n as int));
    }
    Ok(n)
}

/// Remove a matched outer pair of double quotes, if present.
pub fn strip_outer_quotes(s: &str) -> (r: &str)
    ensures
        r@ == strip_quotes(s@),
{
    let len = s.unicode_len();
    if len >= 2 && s.get_char(0) == '"' && s.get_char(len - 1) == '"' {
        s.substring_char(1, len - 1)
    } else {
        s
    }
}

} // verus!
