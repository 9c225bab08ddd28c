//! Recognisers for the textual forms of numbers that schema types ask for.
use vstd::prelude::*;

verus! {

/// An ASCII decimal digit.
pub open spec fn is_digit(c: char) -> bool {
    '0' as u32 <= c as u32 && c as u32 <= '9' as u32
}

/// A non-empty run of ASCII digits.
pub open spec fn all_digits(s: Seq<char>) -> bool {
    s.len() > 0 && forall|i: int| 0 <= i < s.len() ==> is_digit(#[trigger] s[i])
}

/// The number that a run of digits writes in base ten.
pub open spec fn digits_value(s: Seq<char>) -> int
    decreases s.len(),
{
    if s.len() == 0 {
        0
    } else {
        digits_value(s.drop_last()) * 10 + (s.last() as u32 - '0' as u32)
    }
}

/// The text that `i64::from_str` accepts: an optional sign and a non-empty
/// run of ASCII digits whose signed value fits in an `i64`.
pub open spec fn i64_text(s: Seq<char>) -> bool {
    if s.len() > 0 && s[0] == '-' {
        all_digits(s.drop_first()) && -digits_value(s.drop_first()) >= i64::MIN
    } else if s.len() > 0 && s[0] == '+' {
        all_digits(s.drop_first()) && digits_value(s.drop_first()) <= i64::MAX
    } else {
        all_digits(s) && digits_value(s) <= i64::MAX
    }
}

/// Relies on `str::parse::<i64>` (`i64::from_str`): it succeeds exactly on an
/// optional `+` or `-` followed by ASCII digits whose value is in range.
#[verifier::external_body]
pub(crate) fn parses_as_i64(s: &str) -> (r: bool)
    ensures
        r == i64_text(s@),
{
    s.parse::<i64>().is_ok()
}

/// `c` with ASCII upper-case letters mapped to lower case.
pub open spec fn ascii_lower(c: char) -> char {
    if 'A' as u32 <= c as u32 && c as u32 <= 'Z' as u32 {
        (c as u32 + 32) as char
    } else {
        c
    }
}

/// `s` spells `word` (lower-case) up to ASCII case.
pub open spec fn spells(s: Seq<char>, word: Seq<char>) -> bool {
    s.len() == word.len() && forall|i: int| 0 <= i < s.len() ==> ascii_lower(#[trigger] s[i]) == word[i]
}

/// The end of the run of digits in `s` that starts at `i`.
pub open spec fn digit_run(s: Seq<char>, i: int) -> int
    decreases s.len() - i,
{
    if 0 <= i < s.len() && is_digit(s[i]) {
        digit_run(s, i + 1)
    } else {
        i
    }
}

/// `s` without one leading `+` or `-`.
pub open spec fn unsigned_part(s: Seq<char>) -> Seq<char> {
    if s.len() > 0 && (s[0] == '+' || s[0] == '-') {
        s.drop_first()
    } else {
        s
    }
}

/// An exponent: `e` or `E`, an optional sign, and digits.
pub open spec fn exponent_text(s: Seq<char>) -> bool {
    s.len() > 0 && ascii_lower(s[0]) == 'e' && all_digits(unsigned_part(s.drop_first()))
}

/// A decimal number: digits, a point, digits (at least one digit in all, the
/// point optional where the digits come first), then an optional exponent.
pub open spec fn decimal_text(s: Seq<char>) -> bool {
    let i = digit_run(s, 0);
    let has_point = i < s.len() && s[i] == '.';
    let j = if has_point {
        digit_run(s, i + 1)
    } else {
        i
    };
    let digits = if has_point {
        i + (j - (i + 1))
    } else {
        i
    };
    digits > 0 && (j == s.len() || exponent_text(s.subrange(j, s.len() as int)))
}

/// The text that `f64::from_str` accepts: an optional sign, then `inf`,
/// `infinity`, `nan` (in any ASCII case) or a decimal number.
pub open spec fn float_text(s: Seq<char>) -> bool {
    let b = unsigned_part(s);
    spells(b, seq!['i', 'n', 'f']) || spells(b, seq!['i', 'n', 'f', 'i', 'n', 'i', 't', 'y'])
        || spells(b, seq!['n', 'a', 'n']) || decimal_text(b)
}

/// The characters of `s`.
fn chars_of(s: &str) -> (r: Vec<char>)
    ensures
        r@ == s@,
{
    let mut cs: Vec<char> = Vec::new();
    for c in it: s.chars()
        invariant
            it.seq() == s@,
            cs@ == it.seq().subrange(0, it.index() as int),
    {
        cs.push(c);
    }
    cs
}

fn lower_ascii(c: char) -> (r: char)
    ensures
        r == ascii_lower(c),
{
    if 'A' <= c && c <= 'Z' {
        ((c as u8) + 32) as char
    } else {
        c
    }
}

fn digit(c: char) -> (r: bool)
    ensures
        r == is_digit(c),
{
    '0' <= c && c <= '9'
}

/// Whether `cs[start..]` spells `word` up to ASCII case.
fn spells_from(cs: &Vec<char>, start: usize, word: &Vec<char>) -> (r: bool)
    requires
        start <= cs@.len(),
    ensures
        r == spells(cs@.subrange(start as int, cs@.len() as int), word@),
{
    let ghost rest = cs@.subrange(start as int, cs@.len() as int);
    let n = cs.len();
    if n - start != word.len() {
        return false;
    }
    let mut i: usize = 0;
    while i < word.len()
        invariant
            n == cs@.len(),
            start <= cs@.len(),
            cs@.len() - start == word@.len(),
            i <= word@.len(),
            rest == cs@.subrange(start as int, cs@.len() as int),
            forall|j: int| 0 <= j < i ==> ascii_lower(#[trigger] rest[j]) == word@[j],
        decreases word@.len() - i,
    {
        if lower_ascii(cs[start + i]) != word[i] {
            assert(rest[i as int] == cs@[start + i]);
            return false;
        }
        i = i + 1;
    }
    true
}

/// The end of the run of digits in `cs` that starts at `i`.
fn skip_digits(cs: &Vec<char>, i: usize) -> (r: usize)
    requires
        i <= cs@.len(),
    ensures
        r == digit_run(cs@, i as int),
        i <= r <= cs@.len(),
{
    let mut j = i;
    while j < cs.len() && digit(cs[j])
        invariant
            i <= j <= cs@.len(),
            digit_run(cs@, j as int) == digit_run(cs@, i as int),
        decreases cs@.len() - j,
    {
        j = j + 1;
    }
    j
}

/// Whether `cs[start..]` is an exponent.
fn exponent_from(cs: &Vec<char>, start: usize) -> (r: bool)
    requires
        start < cs@.len(),
    ensures
        r == exponent_text(cs@.subrange(start as int, cs@.len() as int)),
{
    let ghost e = cs@.subrange(start as int, cs@.len() as int);
    if lower_ascii(cs[start]) != 'e' {
        return false;
    }
    let n = cs.len();
    assert(start < n);
    let mut k = start + 1;
    assert(e.drop_first() == cs@.subrange(k as int, cs@.len() as int));
    if k < cs.len() && (cs[k] == '+' || cs[k] == '-') {
        k = k + 1;
        assert(unsigned_part(e.drop_first()) == cs@.subrange(k as int, cs@.len() as int));
    }
    let end = skip_digits(cs, k);
    let ghost tail = cs@.subrange(k as int, cs@.len() as int);
    assert(unsigned_part(e.drop_first()) == tail);
    if end > k && end == cs.len() {
        assert forall|m: int| 0 <= m < tail.len() implies is_digit(#[trigger] tail[m]) by {
            lemma_digit_run_digits(cs@, k as int, k + m);
        }
        true
    } else {
        proof {
            if end < cs@.len() {
                lemma_digit_run_end(cs@, k as int);
                assert(tail[end - k] == cs@[end as int]);
            }
        }
        false
    }
}

proof fn lemma_digit_run_end(s: Seq<char>, i: int)
    requires
        0 <= i <= s.len(),
    ensures
        i <= digit_run(s, i) <= s.len(),
        digit_run(s, i) < s.len() ==> !is_digit(s[digit_run(s, i)]),
    decreases s.len() - i,
{
    if i < s.len() && is_digit(s[i]) {
        lemma_digit_run_end(s, i + 1);
    }
}

proof fn lemma_digit_run_digits(s: Seq<char>, i: int, m: int)
    requires
        0 <= i <= m < digit_run(s, i),
    ensures
        is_digit(s[m]),
    decreases m - i,
{
    if i < m {
        lemma_digit_run_digits(s, i + 1, m);
    }
}

/// Whether `value` is text that `f64::from_str` accepts: an optional sign,
/// then `inf`, `infinity` or `nan` in any ASCII case, or a decimal number
/// with an optional exponent.
pub fn is_float_text(value: &str) -> (r: bool)
    ensures
        r == float_text(value@),
{
    let cs = chars_of(value);
    let mut start: usize = 0;
    if cs.len() > 0 && (cs[0] == '+' || cs[0] == '-') {
        start = 1;
    }
    let ghost b = cs@.subrange(start as int, cs@.len() as int);
    assert(unsigned_part(value@) == b);
    if spells_from(&cs, start, &vec!['i', 'n', 'f']) || spells_from(
        &cs,
        start,
        &vec!['i', 'n', 'f', 'i', 'n', 'i', 't', 'y'],
    ) || spells_from(&cs, start, &vec!['n', 'a', 'n']) {
        return true;
    }
    let i = skip_digits(&cs, start);
    let mut j = i;
    let mut digits = i - start;
    let has_point = i < cs.len() && cs[i] == '.';
    if has_point {
        j = skip_digits(&cs, i + 1);
        digits = digits + (j - (i + 1));
    }
    proof {
        lemma_digit_run_shift(cs@, start as int, start as int);
        if has_point {
            lemma_digit_run_shift(cs@, start as int, i + 1);
        }
    }
    if digits == 0 {
        return false;
    }
    if j == cs.len() {
        return true;
    }
    let r = exponent_from(&cs, j);
    assert(cs@.subrange(j as int, cs@.len() as int) == b.subrange(j - start, b.len() as int));
    r
}

/// Runs of digits in a suffix are the runs in the whole, shifted.
proof fn lemma_digit_run_shift(s: Seq<char>, start: int, i: int)
    requires
        0 <= start <= i <= s.len(),
    ensures
        digit_run(s.subrange(start, s.len() as int), i - start) == digit_run(s, i) - start,
    decreases s.len() - i,
{
    if i < s.len() && is_digit(s[i]) {
        lemma_digit_run_shift(s, start, i + 1);
    }
}

} // verus!
