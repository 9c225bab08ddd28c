//! Character-level helpers over `&str`: whitespace trimming, splitting at a
//! delimiter, prefix tests and length bounds, each stated over the string's
//! character sequence.
use vstd::prelude::*;

verus! {

/// The Unicode `White_Space` property, which `char::is_whitespace` and
/// `str::trim` go by.
pub open spec fn is_white_space(c: char) -> bool {
    let u = c as u32;
    (0x9 <= u && u <= 0xd) || u == 0x20 || u == 0x85 || u == 0xa0 || u == 0x1680 || (0x2000 <= u
        && u <= 0x200a) || u == 0x2028 || u == 0x2029 || u == 0x202f || u == 0x205f || u == 0x3000
}

/// `s` without its leading whitespace.
pub open spec fn trim_start_of(s: Seq<char>) -> Seq<char>
    decreases s.len(),
{
    if s.len() > 0 && is_white_space(s[0]) {
        trim_start_of(s.drop_first())
    } else {
        s
    }
}

/// `s` without its trailing whitespace.
pub open spec fn trim_end_of(s: Seq<char>) -> Seq<char>
    decreases s.len(),
{
    if s.len() > 0 && is_white_space(s.last()) {
        trim_end_of(s.drop_last())
    } else {
        s
    }
}

/// `s` without leading and trailing whitespace.
pub open spec fn trimmed(s: Seq<char>) -> Seq<char> {
    trim_end_of(trim_start_of(s))
}

/// `pat` occurs in `s` at position `i`.
pub open spec fn occurs_at(s: Seq<char>, pat: Seq<char>, i: int) -> bool {
    0 <= i && i + pat.len() <= s.len() && s.subrange(i, i + pat.len()) == pat
}

/// The first position at or after `i` where `pat` occurs in `s`, or `s.len()`
/// where there is none.
pub open spec fn find_from(s: Seq<char>, pat: Seq<char>, i: int) -> int
    decreases s.len() - i,
{
    if i < 0 || i >= s.len() || i + pat.len() > s.len() {
        s.len() as int
    } else if occurs_at(s, pat, i) {
        i
    } else {
        find_from(s, pat, i + 1)
    }
}

/// The parts of `s` before and after the first occurrence of `pat`.
pub open spec fn split_at_first(s: Seq<char>, pat: Seq<char>) -> Option<(Seq<char>, Seq<char>)> {
    let f = find_from(s, pat, 0);
    if f + pat.len() <= s.len() {
        Some((s.subrange(0, f), s.subrange(f + pat.len(), s.len() as int)))
    } else {
        None
    }
}

/// Trimming the front of `a + b` stops inside `a` unless `a` is all
/// whitespace.
pub proof fn lemma_trim_start_concat(a: Seq<char>, b: Seq<char>)
    ensures
        trim_start_of(a + b) == if trim_start_of(a).len() > 0 {
            trim_start_of(a) + b
        } else {
            trim_start_of(b)
        },
    decreases a.len(),
{
    if a.len() == 0 {
        assert(a + b == b);
    } else {
        assert((a + b)[0] == a[0]);
        if is_white_space(a[0]) {
            assert((a + b).drop_first() == a.drop_first() + b);
            lemma_trim_start_concat(a.drop_first(), b);
        }
    }
}

/// Trimming the back of `a + b` stops inside `b` unless `b` is all
/// whitespace.
pub proof fn lemma_trim_end_concat(a: Seq<char>, b: Seq<char>)
    ensures
        trim_end_of(a + b) == if trim_end_of(b).len() > 0 {
            a + trim_end_of(b)
        } else {
            trim_end_of(a)
        },
    decreases b.len(),
{
    if b.len() == 0 {
        assert(a + b == a);
    } else {
        assert((a + b).last() == b.last());
        if is_white_space(b.last()) {
            assert((a + b).drop_last() == a + b.drop_last());
            lemma_trim_end_concat(a, b.drop_last());
        }
    }
}

/// Trimming the front twice is trimming it once.
pub proof fn lemma_trim_start_idempotent(s: Seq<char>)
    ensures
        trim_start_of(trim_start_of(s)) == trim_start_of(s),
    decreases s.len(),
{
    if s.len() > 0 && is_white_space(s[0]) {
        lemma_trim_start_idempotent(s.drop_first());
    }
}

/// Trimming the back twice is trimming it once.
pub proof fn lemma_trim_end_idempotent(s: Seq<char>)
    ensures
        trim_end_of(trim_end_of(s)) == trim_end_of(s),
    decreases s.len(),
{
    if s.len() > 0 && is_white_space(s.last()) {
        lemma_trim_end_idempotent(s.drop_last());
    }
}

/// Trimming the back leaves a prefix.
pub proof fn lemma_trim_end_prefix(s: Seq<char>)
    ensures
        trim_end_of(s).len() <= s.len(),
        trim_end_of(s) == s.subrange(0, trim_end_of(s).len() as int),
    decreases s.len(),
{
    if s.len() > 0 && is_white_space(s.last()) {
        lemma_trim_end_prefix(s.drop_last());
    } else {
        assert(s == s.subrange(0, s.len() as int));
    }
}

/// Trimming the front leaves a suffix.
pub proof fn lemma_trim_start_suffix(s: Seq<char>)
    ensures
        trim_start_of(s).len() <= s.len(),
        trim_start_of(s) == s.subrange(s.len() - trim_start_of(s).len(), s.len() as int),
    decreases s.len(),
{
    if s.len() > 0 && is_white_space(s[0]) {
        lemma_trim_start_suffix(s.drop_first());
    } else {
        assert(s == s.subrange(0, s.len() as int));
    }
}

/// The two ends can be trimmed in either order.
pub proof fn lemma_trim_commutes(s: Seq<char>)
    ensures
        trim_start_of(trim_end_of(s)) == trim_end_of(trim_start_of(s)),
    decreases s.len(),
{
    if s.len() > 0 {
        let u = s.drop_last();
        let c = s.last();
        assert(s == u + seq![c]);
        lemma_trim_start_concat(u, seq![c]);
        assert(seq![c].drop_first() == Seq::<char>::empty());
        assert(trim_start_of(Seq::<char>::empty()) == Seq::<char>::empty());
        assert(trim_end_of(Seq::<char>::empty()) == Seq::<char>::empty());
        assert(seq![c].drop_last() == Seq::<char>::empty());
        if trim_start_of(u).len() > 0 {
            assert((trim_start_of(u) + seq![c]).last() == c);
            assert((trim_start_of(u) + seq![c]).drop_last() == trim_start_of(u));
        }
        if is_white_space(c) {
            lemma_trim_commutes(u);
        }
    }
}

/// Where `s[p]` is the first `c` at or after `i`, the search for `[c]` from
/// `i` finds `p`.
pub proof fn lemma_find_char(s: Seq<char>, c: char, i: int, p: int)
    requires
        0 <= i <= p < s.len(),
        s[p] == c,
        forall|j: int| i <= j < p ==> s[j] != c,
    ensures
        find_from(s, seq![c], i) == p,
    decreases p - i,
{
    assert(s.subrange(i, i + 1) == seq![s[i]]);
    if i < p {
        if s.subrange(i, i + 1) == seq![c] {
            assert(s.subrange(i, i + 1)[0] == s[i]);
        }
        assert(!occurs_at(s, seq![c], i));
        lemma_find_char(s, c, i + 1, p);
    } else {
        assert(occurs_at(s, seq![c], i));
    }
}

/// The strings of a sequence as character sequences.
pub open spec fn string_views(v: Seq<String>) -> Seq<Seq<char>> {
    v.map_values(|s: String| s@)
}

/// Relies on `str` equality: two strings are equal exactly when they hold the
/// same characters.
#[verifier::external_body]
pub(crate) fn same_text(a: &str, b: &str) -> (r: bool)
    ensures
        r == (a@ == b@),
{
    a == b
}

/// Relies on `str::trim`: the slice without leading and trailing
/// `White_Space` characters.
#[verifier::external_body]
pub(crate) fn trim(s: &str) -> (r: &str)
    ensures
        r@ == trimmed(s@),
{
    s.trim()
}

/// Relies on `str::split_once`: the parts before and after the first
/// occurrence of `delim`, or `None` where it does not occur.
#[verifier::external_body]
pub(crate) fn split_once<'a>(s: &'a str, delim: &str) -> (r: Option<(&'a str, &'a str)>)
    requires
        delim@.len() > 0,
    ensures
        match r {
            Some(parts) => split_at_first(s@, delim@) == Some((parts.0@, parts.1@)),
            None => split_at_first(s@, delim@) is None,
        },
{
    s.split_once(delim)
}

/// Relies on `str::strip_prefix` with a `char` pattern: the rest of `s` after
/// a leading `c`, or `None` where `s` does not start with `c`.
#[verifier::external_body]
pub(crate) fn strip_prefix_char(s: &str, c: char) -> (r: Option<&str>)
    ensures
        match r {
            Some(rest) => s@.len() > 0 && s@[0] == c && rest@ == s@.drop_first(),
            None => !(s@.len() > 0 && s@[0] == c),
        },
{
    s.strip_prefix(c)
}

/// Whether `s` has more than `limit` characters; reads at most `limit + 1`
/// of them.
pub fn longer_than(s: &str, limit: usize) -> (r: bool)
    ensures
        r == (s@.len() > limit),
{
    let mut n: usize = 0;
    for c in it: s.chars()
        invariant
            n == it.index(),
            n <= limit,
            it.seq() == s@,
    {
        if n == limit {
            return true;
        }
        n = n + 1;
    }
    false
}

} // verus!
