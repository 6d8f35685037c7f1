use vstd::prelude::*;
use vstd::string::*;

verus! {

pub open spec fn is_digit(c: char) -> bool {
    '0' <= c && c <= '9'
}

pub open spec fn all_digits(s: Seq<char>) -> bool {
    forall|i: int| 0 <= i < s.len() ==> #[trigger] is_digit(s[i])
}

/// The number that a string of decimal digits denotes.
pub open spec fn decimal_value(s: Seq<char>) -> nat
    decreases s.len(),
{
    if s.len() == 0 {
        0
    } else {
        decimal_value(s.drop_last()) * 10 + (s.last() as nat - '0' as nat) as nat
    }
}

/// The value of `s` as an unsigned decimal number no larger than `max`:
/// one or more digits, nothing else.
pub open spec fn parse_decimal_spec(s: Seq<char>, max: nat) -> Option<nat> {
    if s.len() > 0 && all_digits(s) && decimal_value(s) <= max {
        Some(decimal_value(s))
    } else {
        None
    }
}

/// Unicode white space (the `White_Space` property, as `char::is_whitespace`
/// tests it), as trimmed from the ends of short text records.
pub open spec fn is_space(c: char) -> bool {
    ('\u{9}' <= c && c <= '\u{d}') || c == ' ' || c == '\u{85}' || c == '\u{a0}' || c
        == '\u{1680}' || ('\u{2000}' <= c && c <= '\u{200a}') || c == '\u{2028}' || c
        == '\u{2029}' || c == '\u{202f}' || c == '\u{205f}' || c == '\u{3000}'
}

/// Whether `c` is white space.
pub fn is_space_char(c: char) -> (r: bool)
    ensures
        r == is_space(c),
{
    ('\u{9}' <= c && c <= '\u{d}') || c == ' ' || c == '\u{85}' || c == '\u{a0}' || c
        == '\u{1680}' || ('\u{2000}' <= c && c <= '\u{200a}') || c == '\u{2028}' || c
        == '\u{2029}' || c == '\u{202f}' || c == '\u{205f}' || c == '\u{3000}'
}

/// The value of `s` as an unsigned number no larger than `max`, as std
/// reads one: an optional `+`, then one or more decimal digits.
pub open spec fn parse_unsigned_spec(s: Seq<char>, max: nat) -> Option<nat> {
    if s.len() > 0 && s[0] == '+' {
        parse_decimal_spec(s.skip(1), max)
    } else {
        parse_decimal_spec(s, max)
    }
}

/// Whether every character of `s` is whitespace.
pub open spec fn all_space(s: Seq<char>) -> bool {
    forall|i: int| 0 <= i < s.len() ==> #[trigger] is_space(s[i])
}

/// `s` without its leading and trailing whitespace: the one infix
/// `s[lo..hi]` such that everything outside it is whitespace and, unless it
/// is empty, it starts and ends with other characters.
pub open spec fn trimmed(s: Seq<char>, lo: int, hi: int) -> bool {
    &&& 0 <= lo <= hi <= s.len()
    &&& all_space(s.subrange(0, lo))
    &&& all_space(s.subrange(hi, s.len() as int))
    &&& lo < hi ==> !is_space(s[lo]) && !is_space(s[hi - 1])
    &&& lo == hi ==> all_space(s)
}

proof fn lemma_decimal_grows(s: Seq<char>, i: int)
    requires
        0 <= i <= s.len(),
        all_digits(s),
    ensures
        decimal_value(s.take(i)) <= decimal_value(s),
    decreases s.len() - i,
{
    if i < s.len() {
        lemma_decimal_grows(s, i + 1);
        assert(s.take(i + 1).drop_last() =~= s.take(i));
        assert(is_digit(s[i]));
    } else {
        assert(s.take(i) =~= s);
    }
}

/// Reads an unsigned decimal number no larger than `max`.
pub fn parse_decimal(s: &str, max: u64) -> (r: Option<u64>)
    ensures
        r matches Some(v) ==> parse_decimal_spec(s@, max as nat) == Some(v as nat),
        r is None ==> parse_decimal_spec(s@, max as nat) is None,
{
    let n = s.unicode_len();
    if n == 0 {
        return None;
    }
    let mut v: u64 = 0;
    let mut i: usize = 0;
    while i < n
        invariant
            n == s@.len(),
            i <= n,
            all_digits(s@.take(i as int)),
            v as nat == decimal_value(s@.take(i as int)),
            v <= max,
        decreases n - i,
    {
        let c = s.get_char(i);
        assert(s@.take(i as int + 1).drop_last() =~= s@.take(i as int));
        if c < '0' || c > '9' {
            assert(!is_digit(s@[i as int]));
            return None;
        }
        let d = (c as u32 - '0' as u32) as u64;
        if d > max || v > (max - d) / 10 {
            proof {
                assert(all_digits(s@.take(i as int + 1)));
                assert(decimal_value(s@.take(i as int + 1)) == v * 10 + d);
                if d <= max {
                    assert(v * 10 + d > max) by (nonlinear_arith)
                        requires
                            v > (max - d) / 10,
                            d <= max,
                    ;
                }
                if all_digits(s@) {
                    lemma_decimal_grows(s@, i as int + 1);
                }
            }
            return None;
        }
        proof {
            assert((v * 10 + d) <= max) by (nonlinear_arith)
                requires
                    v <= (max - d) / 10,
                    d <= max,
            ;
        }
        v = v * 10 + d;
        i = i + 1;
    }
    assert(s@.take(n as int) =~= s@);
    Some(v)
}

/// The value of `s` as a signed decimal `i64`: an optional `+` or `-`, then
/// one or more digits.
pub open spec fn parse_i64_spec(s: Seq<char>) -> Option<int> {
    if s.len() > 0 && s[0] == '-' {
        match parse_decimal_spec(s.skip(1), 9223372036854775808) {
            Some(v) => Some(-v),
            None => None,
        }
    } else if s.len() > 0 && s[0] == '+' {
        match parse_decimal_spec(s.skip(1), 9223372036854775807) {
            Some(v) => Some(v as int),
            None => None,
        }
    } else {
        match parse_decimal_spec(s, 9223372036854775807) {
            Some(v) => Some(v as int),
            None => None,
        }
    }
}

/// Reads an unsigned number no larger than `max`: an optional `+`, then
/// decimal digits.
pub fn parse_unsigned(s: &str, max: u64) -> (r: Option<u64>)
    ensures
        match r {
            Some(v) => parse_unsigned_spec(s@, max as nat) == Some(v as nat),
            None => parse_unsigned_spec(s@, max as nat) is None,
        },
{
    let n = s.unicode_len();
    if n > 0 && s.get_char(0) == '+' {
        let rest = s.substring_char(1, n);
        assert(rest@ =~= s@.skip(1));
        parse_decimal(rest, max)
    } else {
        parse_decimal(s, max)
    }
}

/// Reads a signed decimal `i64`.
pub fn parse_i64(s: &str) -> (r: Option<i64>)
    ensures
        match r {
            Some(v) => parse_i64_spec(s@) == Some(v as int),
            None => parse_i64_spec(s@) is None,
        },
{
    let n = s.unicode_len();
    if n > 0 && s.get_char(0) == '-' {
        let rest = s.substring_char(1, n);
        assert(rest@ =~= s@.skip(1));
        match parse_decimal(rest, 9223372036854775808) {
            Some(v) => {
                if v == 9223372036854775808 {
                    Some(i64::MIN)
                } else {
                    Some(-(v as i64))
                }
            },
            None => None,
        }
    } else if n > 0 && s.get_char(0) == '+' {
        let rest = s.substring_char(1, n);
        assert(rest@ =~= s@.skip(1));
        match parse_decimal(rest, 9223372036854775807) {
            Some(v) => Some(v as i64),
            None => None,
        }
    } else {
        match parse_decimal(s, 9223372036854775807) {
            Some(v) => Some(v as i64),
            None => None,
        }
    }
}

/// The decimal digit for `d`.
pub open spec fn digit_char(d: nat) -> char {
    ('0' as nat + d) as char
}

/// The decimal numeral of `n`, without leading zeros.
pub open spec fn decimal_text_spec(n: nat) -> Seq<char>
    decreases n,
{
    if n < 10 {
        seq![digit_char(n)]
    } else {
        decimal_text_spec(n / 10) + seq![digit_char(n % 10)]
    }
}

/// The decimal numeral of `n`, without leading zeros.
pub fn decimal_text(n: u64) -> (r: String)
    ensures
        r@ == decimal_text_spec(n as nat),
    decreases n,
{
    let digits = "0123456789";
    proof {
        reveal_strlit("0123456789");
    }
    let d = (n % 10) as usize;
    let piece = digits.substring_char(d, d + 1);
    assert(piece@ =~= seq![digit_char(d as nat)]);
    if n < 10 {
        piece.to_owned()
    } else {
        let mut out = decimal_text(n / 10);
        out.append(piece);
        out
    }
}

/// Whether the two strings hold the same characters.
pub fn str_eq(a: &str, b: &str) -> (r: bool)
    ensures
        r == (a@ == b@),
{
    let n = a.unicode_len();
    if n != b.unicode_len() {
        return false;
    }
    let mut i: usize = 0;
    while i < n
        invariant
            n == a@.len(),
            n == b@.len(),
            i <= n,
            forall|j: int| 0 <= j < i ==> a@[j] == b@[j],
        decreases n - i,
    {
        if a.get_char(i) != b.get_char(i) {
            return false;
        }
        i = i + 1;
    }
    assert(a@ =~= b@);
    true
}

/// The bounds `(lo, hi)` of `s` without leading and trailing whitespace.
pub fn trim_bounds(s: &str) -> (r: (usize, usize))
    ensures
        trimmed(s@, r.0 as int, r.1 as int),
{
    let n = s.unicode_len();
    let mut lo: usize = 0;
    while lo < n && is_space_char(s.get_char(lo))
        invariant
            n == s@.len(),
            lo <= n,
            all_space(s@.subrange(0, lo as int)),
        decreases n - lo,
    {
        assert(s@.subrange(0, lo as int + 1) =~= s@.subrange(0, lo as int).push(s@[lo as int]));
        lo = lo + 1;
    }
    let mut hi: usize = n;
    while hi > lo && is_space_char(s.get_char(hi - 1))
        invariant
            n == s@.len(),
            lo <= hi <= n,
            all_space(s@.subrange(hi as int, n as int)),
            lo < n ==> !is_space(s@[lo as int]),
            all_space(s@.subrange(0, lo as int)),
        decreases hi - lo,
    {
        assert(s@.subrange(hi as int - 1, n as int) =~= seq![s@[hi as int - 1]] + s@.subrange(
            hi as int,
            n as int,
        ));
        hi = hi - 1;
    }
    proof {
        if lo == hi {
            assert forall|i: int| 0 <= i < s@.len() implies #[trigger] is_space(s@[i]) by {
                if i < lo {
                    assert(s@.subrange(0, lo as int)[i] == s@[i]);
                } else {
                    assert(s@.subrange(hi as int, n as int)[i - hi] == s@[i]);
                }
            }
        }
    }
    (lo, hi)
}

proof fn lemma_trim_unique(t: Seq<char>, lo: int, hi: int, lo2: int, hi2: int)
    requires
        trimmed(t, lo, hi),
        trimmed(t, lo2, hi2),
    ensures
        t.subrange(lo, hi) == t.subrange(lo2, hi2),
{
    if lo < hi && lo2 < hi2 {
        if lo < lo2 {
            assert(t.subrange(0, lo2)[lo] == t[lo]);
        } else if lo2 < lo {
            assert(t.subrange(0, lo)[lo2] == t[lo2]);
        }
        if hi < hi2 {
            assert(t.subrange(hi, t.len() as int)[hi2 - 1 - hi] == t[hi2 - 1]);
        } else if hi2 < hi {
            assert(t.subrange(hi2, t.len() as int)[hi - 1 - hi2] == t[hi - 1]);
        }
    } else if lo < hi {
        assert(is_space(t[lo]));
    } else if lo2 < hi2 {
        assert(is_space(t[lo2]));
    } else {
        assert(t.subrange(lo, hi) =~= t.subrange(lo2, hi2));
    }
}

/// `s` without its leading and trailing whitespace.
pub open spec fn trim_spec(s: Seq<char>) -> Seq<char> {
    let b = choose|b: (int, int)| #[trigger] trimmed(s, b.0, b.1);
    s.subrange(b.0, b.1)
}

/// Any bounds that trim `s` give `trim_spec(s)`.
pub proof fn lemma_trim_spec(s: Seq<char>, lo: int, hi: int)
    requires
        trimmed(s, lo, hi),
    ensures
        trim_spec(s) == s.subrange(lo, hi),
{
    assert(trimmed(s, (lo, hi).0, (lo, hi).1));
    let b = choose|b: (int, int)| #[trigger] trimmed(s, b.0, b.1);
    lemma_trim_unique(s, lo, hi, b.0, b.1);
}

/// `s` without leading and trailing whitespace.
pub fn trim_text(s: &str) -> (r: String)
    ensures
        r@ == trim_spec(s@),
{
    let (lo, hi) = trim_bounds(s);
    proof {
        lemma_trim_spec(s@, lo as int, hi as int);
    }
    s.substring_char(lo, hi).to_owned()
}

} // verus!
