//! Text helpers over `str`, stated on its character view.
use vstd::prelude::*;
use vstd::string::*;
use vstd::utf8::{decode_utf8, encode_utf8, valid_utf8};

verus! {

broadcast use vstd::utf8::group_utf8_lib;

/// Whether two string slices hold the same characters.
pub fn str_eq(a: &str, b: &str) -> (equal: bool)
    ensures
        equal == (a@ == b@),
{
    let x = a.as_bytes();
    let y = b.as_bytes();
    proof {
        vstd::utf8::encode_utf8_decode_utf8(a@);
        vstd::utf8::encode_utf8_decode_utf8(b@);
    }
    if x.len() != y.len() {
        return false;
    }
    let mut i: usize = 0;
    while i < x.len()
        invariant
            x@.len() == y@.len(),
            i <= x@.len(),
            x@ == vstd::utf8::encode_utf8(a@),
            y@ == vstd::utf8::encode_utf8(b@),
            vstd::utf8::decode_utf8(x@) == a@,
            vstd::utf8::decode_utf8(y@) == b@,
            forall|k: int| 0 <= k < i ==> x@[k] == y@[k],
        decreases x@.len() - i,
    {
        if x[i] != y[i] {
            return false;
        }
        i = i + 1;
    }
    assert(x@ =~= y@);
    true
}

/// `std::str::from_utf8`: `Some` exactly when the bytes are valid UTF-8, and
/// then a string slice whose UTF-8 encoding is those same bytes.
#[verifier::external_body]
fn from_utf8(bytes: &[u8]) -> (text: Option<&str>)
    ensures
        text is Some <==> valid_utf8(bytes@),
        text matches Some(t) ==> encode_utf8(t@) == bytes@,
{
    std::str::from_utf8(bytes).ok()
}

/// Decodes bytes as UTF-8, as `std::str::from_utf8` does.
pub fn decode(bytes: &[u8]) -> (text: Option<&str>)
    ensures
        match text {
            Some(t) => valid_utf8(bytes@) && t@ == decode_utf8(bytes@),
            None => !valid_utf8(bytes@),
        },
{
    let text = from_utf8(bytes);
    proof {
        if let Some(t) = text {
            vstd::utf8::encode_utf8_decode_utf8(t@);
        }
    }
    text
}

/// The characters of a string slice, in order.
pub fn chars_of(s: &str) -> (chars: Vec<char>)
    ensures
        chars@ == s@,
{
    let mut chars: Vec<char> = Vec::new();
    for c in it: s.chars()
        invariant
            it.seq() == s@,
            chars@ == it.seq().take(it.index() as int),
    {
        chars.push(c);
    }
    chars
}

/// Whether `pat` occurs in `s` starting at position `p`.
pub open spec fn occurs_at(s: Seq<char>, pat: Seq<char>, p: int) -> bool {
    0 <= p && p + pat.len() <= s.len() && s.subrange(p, p + pat.len()) == pat
}

/// The first position at or after `from` where `pat` occurs in `s`.
pub open spec fn find_from(s: Seq<char>, pat: Seq<char>, from: int) -> Option<int>
    decreases s.len() + 1 - from,
{
    if from < 0 || from + pat.len() > s.len() {
        None
    } else if occurs_at(s, pat, from) {
        Some(from)
    } else {
        find_from(s, pat, from + 1)
    }
}

/// What [`find_from`] returns is an occurrence, at or after where it started.
pub proof fn lemma_find_from(s: Seq<char>, pat: Seq<char>, from: int)
    ensures
        find_from(s, pat, from) matches Some(p) ==> from <= p && occurs_at(s, pat, p),
    decreases s.len() + 1 - from,
{
    if !(from < 0 || from + pat.len() > s.len()) && !occurs_at(s, pat, from) {
        lemma_find_from(s, pat, from + 1);
    }
}

/// Finds the first occurrence of `pat` in `s`.
pub fn find(s: &Vec<char>, pat: &Vec<char>) -> (found: Option<usize>)
    ensures
        match found {
            Some(p) => find_from(s@, pat@, 0) == Some(p as int) && occurs_at(s@, pat@, p as int),
            None => find_from(s@, pat@, 0) is None,
        },
{
    proof {
        lemma_find_from(s@, pat@, 0);
    }
    if pat.len() > s.len() {
        return None;
    }
    if pat.len() == 0 {
        assert(s@.subrange(0, 0) =~= pat@);
        return Some(0);
    }
    let last = s.len() - pat.len();
    let mut p: usize = 0;
    while p <= last
        invariant
            last == s@.len() - pat@.len(),
            1 <= pat@.len() <= s@.len() <= usize::MAX,
            p <= last + 1,
            find_from(s@, pat@, 0) == find_from(s@, pat@, p as int),
            find_from(s@, pat@, 0) matches Some(q) ==> occurs_at(s@, pat@, q),
        decreases last + 1 - p,
    {
        let mut k: usize = 0;
        let mut matched = true;
        while k < pat.len()
            invariant
                p <= last,
                last == s@.len() - pat@.len(),
                1 <= pat@.len() <= s@.len() <= usize::MAX,
                k <= pat@.len(),
                matched == (forall|q: int| 0 <= q < k ==> s@[p + q] == pat@[q]),
            decreases pat@.len() - k,
        {
            if s[p + k] != pat[k] {
                matched = false;
            }
            k = k + 1;
        }
        if matched {
            assert(s@.subrange(p as int, p + pat@.len()) =~= pat@);
            return Some(p);
        }
        assert(!occurs_at(s@, pat@, p as int)) by {
            if s@.subrange(p as int, p + pat@.len()) == pat@ {
                let q = choose|q: int| 0 <= q < pat@.len() && s@[p + q] != pat@[q];
                assert(s@.subrange(p as int, p + pat@.len())[q] == s@[p + q]);
            }
        }
        p = p + 1;
    }
    None
}

/// `char::is_whitespace`: the characters with the Unicode `White_Space` property.
pub open spec fn is_whitespace(c: char) -> bool {
    ||| '\u{9}' <= c <= '\u{d}'
    ||| c == ' '
    ||| c == '\u{85}'
    ||| c == '\u{a0}'
    ||| c == '\u{1680}'
    ||| '\u{2000}' <= c <= '\u{200a}'
    ||| c == '\u{2028}'
    ||| c == '\u{2029}'
    ||| c == '\u{202f}'
    ||| c == '\u{205f}'
    ||| c == '\u{3000}'
}

pub fn whitespace(c: char) -> (ws: bool)
    ensures
        ws == is_whitespace(c),
{
    ('\u{9}' <= c && c <= '\u{d}') || c == ' ' || c == '\u{85}' || c == '\u{a0}' || c == '\u{1680}'
        || ('\u{2000}' <= c && c <= '\u{200a}') || c == '\u{2028}' || c == '\u{2029}' || c
        == '\u{202f}' || c == '\u{205f}' || c == '\u{3000}'
}

/// `str::trim_start`: drops leading whitespace.
pub open spec fn trim_start(s: Seq<char>) -> Seq<char>
    decreases s.len(),
{
    if s.len() > 0 && is_whitespace(s[0]) {
        trim_start(s.drop_first())
    } else {
        s
    }
}

/// `str::trim_end`: drops trailing whitespace.
pub open spec fn trim_end(s: Seq<char>) -> Seq<char>
    decreases s.len(),
{
    if s.len() > 0 && is_whitespace(s.last()) {
        trim_end(s.drop_last())
    } else {
        s
    }
}

/// `str::trim`: drops whitespace at both ends.
pub open spec fn trim(s: Seq<char>) -> Seq<char> {
    trim_end(trim_start(s))
}

/// `str::trim_end_matches("*/")`: drops every trailing comment terminator.
pub open spec fn trim_closers(s: Seq<char>) -> Seq<char>
    decreases s.len(),
{
    if s.len() >= 2 && s[s.len() - 2] == '*' && s[s.len() - 1] == '/' {
        trim_closers(s.take(s.len() - 2))
    } else {
        s
    }
}

/// The first line of `s`: everything before its first line feed. (A carriage
/// return before the line feed stays; every caller trims it.)
pub open spec fn first_line(s: Seq<char>) -> Seq<char> {
    match find_from(s, seq!['\n'], 0) {
        Some(e) => s.take(e),
        None => s,
    }
}

/// Narrows `[lo, hi)` of `s` to its trimmed part.
pub fn trim_range(s: &Vec<char>, lo: usize, hi: usize) -> (range: (usize, usize))
    requires
        lo <= hi <= s@.len(),
    ensures
        lo <= range.0 <= range.1 <= hi,
        s@.subrange(range.0 as int, range.1 as int) == trim(s@.subrange(lo as int, hi as int)),
{
    let mut a = lo;
    while a < hi && whitespace(s[a])
        invariant
            lo <= a <= hi <= s@.len(),
            trim_start(s@.subrange(lo as int, hi as int)) == trim_start(
                s@.subrange(a as int, hi as int),
            ),
        decreases hi - a,
    {
        assert(s@.subrange(a as int, hi as int).drop_first() =~= s@.subrange(a + 1, hi as int));
        a = a + 1;
    }
    assert(trim_start(s@.subrange(a as int, hi as int)) == s@.subrange(a as int, hi as int));
    let mut b = hi;
    while b > a && whitespace(s[b - 1])
        invariant
            lo <= a <= b <= hi <= s@.len(),
            trim(s@.subrange(lo as int, hi as int)) == trim_end(s@.subrange(a as int, b as int)),
        decreases b - a,
    {
        assert(s@.subrange(a as int, b as int).drop_last() =~= s@.subrange(a as int, b - 1));
        b = b - 1;
    }
    (a, b)
}

/// Narrows `[lo, hi)` of `s` by every trailing `*/`.
pub fn trim_closers_range(s: &Vec<char>, lo: usize, hi: usize) -> (end: usize)
    requires
        lo <= hi <= s@.len(),
    ensures
        lo <= end <= hi,
        s@.subrange(lo as int, end as int) == trim_closers(s@.subrange(lo as int, hi as int)),
{
    let mut b = hi;
    while b - lo >= 2 && s[b - 2] == '*' && s[b - 1] == '/'
        invariant
            lo <= b <= hi <= s@.len(),
            trim_closers(s@.subrange(lo as int, hi as int)) == trim_closers(
                s@.subrange(lo as int, b as int),
            ),
        decreases b - lo,
    {
        assert(s@.subrange(lo as int, b as int).take(b - lo - 2) =~= s@.subrange(
            lo as int,
            b - 2,
        ));
        b = b - 2;
    }
    b
}

/// The value of a string of decimal digits.
pub open spec fn digits_value(d: Seq<char>) -> nat
    decreases d.len(),
{
    if d.len() == 0 {
        0
    } else {
        digits_value(d.drop_last()) * 10 + ((d.last() as int - '0' as int) as nat)
    }
}

pub open spec fn all_digits(d: Seq<char>) -> bool {
    forall|k: int| 0 <= k < d.len() ==> '0' <= #[trigger] d[k] <= '9'
}

/// `u32::from_str`: an optional `+`, then one or more decimal digits whose value
/// fits in a `u32`.
pub open spec fn parse_u32(s: Seq<char>) -> Option<u32> {
    let d = if s.len() > 0 && s[0] == '+' {
        s.drop_first()
    } else {
        s
    };
    if d.len() > 0 && all_digits(d) && digits_value(d) <= u32::MAX {
        Some(digits_value(d) as u32)
    } else {
        None
    }
}

proof fn lemma_digits_value_grows(d: Seq<char>, k: int)
    requires
        all_digits(d),
        0 <= k <= d.len(),
    ensures
        digits_value(d.take(k)) <= digits_value(d),
    decreases d.len() - k,
{
    if k < d.len() {
        lemma_digits_value_grows(d, k + 1);
        assert(d.take(k + 1).drop_last() =~= d.take(k));
    } else {
        assert(d.take(k) =~= d);
    }
}

/// Parses a decimal `u32` as `str::parse::<u32>` does.
pub fn parse_decimal(s: &str) -> (value: Option<u32>)
    ensures
        value == parse_u32(s@),
{
    let cs = chars_of(s);
    let mut k: usize = 0;
    if cs.len() > 0 && cs[0] == '+' {
        k = 1;
    }
    let ghost d = if cs@.len() > 0 && cs@[0] == '+' {
        cs@.drop_first()
    } else {
        cs@
    };
    assert(d =~= cs@.skip(k as int));
    if k == cs.len() {
        assert(d.len() == 0);
        assert(parse_u32(s@) is None);
        return None;
    }
    let mut i = k;
    while i < cs.len()
        invariant
            k <= i <= cs@.len(),
            d =~= cs@.skip(k as int),
            cs@ == s@,
            d == (if cs@.len() > 0 && cs@[0] == '+' {
                cs@.drop_first()
            } else {
                cs@
            }),
            forall|q: int| k <= q < i ==> '0' <= #[trigger] cs@[q] <= '9',
        decreases cs@.len() - i,
    {
        if cs[i] < '0' || cs[i] > '9' {
            assert(d[i - k] == cs@[i as int]);
            return None;
        }
        i = i + 1;
    }
    assert(all_digits(d)) by {
        assert forall|q: int| 0 <= q < d.len() implies '0' <= #[trigger] d[q] <= '9' by {
            assert(d[q] == cs@[q + k]);
        }
    }
    let mut v: u64 = 0;
    let mut i = k;
    while i < cs.len()
        invariant
            k <= i <= cs@.len(),
            d =~= cs@.skip(k as int),
            cs@ == s@,
            d == (if cs@.len() > 0 && cs@[0] == '+' {
                cs@.drop_first()
            } else {
                cs@
            }),
            all_digits(d),
            v == digits_value(d.take(i - k)),
            v <= u32::MAX,
        decreases cs@.len() - i,
    {
        let c = cs[i];
        assert(d[i - k] == c);
        assert('0' <= c <= '9');
        let digit = (c as u32 - '0' as u32) as u64;
        assert(d.take(i - k + 1).drop_last() =~= d.take(i - k));
        assert(d.take(i - k + 1).last() == c);
        v = v * 10 + digit;
        i = i + 1;
        assert(v == digits_value(d.take(i - k)));
        if v > 4294967295u64 {
            proof {
                lemma_digits_value_grows(d, i - k);
            }
            assert(digits_value(d) > u32::MAX);
            return None;
        }
    }
    assert(d.take(i - k) =~= d);
    Some(v as u32)
}

} // verus!
