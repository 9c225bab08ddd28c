//! Parsing of `key = value` configuration text, one line at a time, into a
//! flat table keyed by the full dotted key.
use crate::config::Config;
use crate::table::{map_entries, map_insert, new_map};
use crate::text::{
    is_white_space, lemma_find_char, lemma_trim_commutes, lemma_trim_end_concat,
    lemma_trim_end_idempotent, lemma_trim_end_prefix, lemma_trim_start_concat,
    lemma_trim_start_idempotent, lemma_trim_start_suffix, longer_than, split_at_first, split_once,
    string_views, strip_prefix_char, trim, trim_end_of, trim_start_of, trimmed,
};
use rustc_hash::FxHashMap;
use vstd::prelude::*;
use vstd::string::StringExecFns;

verus! {

/// One `key = value` directive taken from a line.
#[derive(Debug)]
pub struct Directive {
    pub key: String,
    pub value: String,
    /// The line was marked with a leading `-`: errors on this entry are to be
    /// ignored.
    pub ignore_errors: bool,
}

/// Why a configuration text could not be parsed.
#[derive(Debug)]
pub enum ParseError {
    /// The value of `key` is longer than `Config::MAX_VALUE_LENGTH` characters.
    ValueTooLong { key: String },
}

impl ParseError {
    /// A readable description of the error.
    pub fn message(&self) -> (r: String)
        ensures
            match self {
                ParseError::ValueTooLong { key } => r@ == value_too_long_message(key@),
            },
    {
        match self {
            ParseError::ValueTooLong { key } => {
                let mut s = String::from_str("Error: キー '");
                s.append(key.as_str());
                s.append("' の値が4096文字を超えています。");
                s
            },
        }
    }
}

/// The message for a value of `key` that is too long.
pub open spec fn value_too_long_message(key: Seq<char>) -> Seq<char> {
    "Error: キー '"@ + key + "' の値が4096文字を超えています。"@
}

/// What a line says: `None` for a blank line, a comment (`#` or `;`) or a line
/// without `=`; otherwise the trimmed key (without a leading `-` marker), the
/// trimmed value, and whether the marker was there.
pub open spec fn line_entry(line: Seq<char>) -> Option<(Seq<char>, Seq<char>, bool)> {
    let t = trimmed(line);
    if t.len() == 0 || t[0] == '#' || t[0] == ';' {
        None
    } else {
        let marked = t[0] == '-';
        let body = if marked {
            t.drop_first()
        } else {
            t
        };
        match split_at_first(body, seq!['=']) {
            Some(parts) => Some((trimmed(parts.0), trimmed(parts.1), marked)),
            None => None,
        }
    }
}

/// The line holds a directive whose value exceeds the length limit.
pub open spec fn oversized(line: Seq<char>) -> bool {
    line_entry(line) matches Some(e) && e.1.len() > Config::MAX_VALUE_LENGTH
}

/// The table after one more line: an unmarked directive binds its key, and
/// everything else leaves the table as it was.
pub open spec fn table_after_line(m: Map<Seq<char>, Seq<char>>, line: Seq<char>) -> Map<
    Seq<char>,
    Seq<char>,
> {
    match line_entry(line) {
        Some(e) => if e.2 {
            m
        } else {
            m.insert(e.0, e.1)
        },
        None => m,
    }
}

/// The table that a sequence of lines builds from an empty one.
pub open spec fn table_of_lines(lines: Seq<Seq<char>>) -> Map<Seq<char>, Seq<char>>
    decreases lines.len(),
{
    if lines.len() == 0 {
        Map::empty()
    } else {
        table_after_line(table_of_lines(lines.drop_last()), lines.last())
    }
}

/// The key side `k` of a line `k = v`: it holds no `=`, and trimmed it is
/// neither empty nor starts with a comment sign or the `-` marker.
pub open spec fn plain_key(k: Seq<char>) -> bool {
    &&& forall|i: int| 0 <= i < k.len() ==> k[i] != '='
    &&& trimmed(k).len() > 0
    &&& trimmed(k)[0] != '#'
    &&& trimmed(k)[0] != ';'
    &&& trimmed(k)[0] != '-'
}

/// The line `k = v`.
pub open spec fn directive_line(k: Seq<char>, v: Seq<char>) -> Seq<char> {
    k + seq!['='] + v
}

/// A line `k = v` with a plain key says `trimmed(k) = trimmed(v)`.
proof fn lemma_directive_entry(k: Seq<char>, v: Seq<char>)
    requires
        plain_key(k),
    ensures
        line_entry(directive_line(k, v)) == Some((trimmed(k), trimmed(v), false)),
{
    let line = directive_line(k, v);
    let sk = trim_start_of(k);
    let ev = trim_end_of(v);
    assert(line == k + (seq!['='] + v));
    lemma_trim_start_concat(k, seq!['='] + v);
    assert(trim_end_of(Seq::<char>::empty()) == Seq::<char>::empty());
    assert(sk.len() > 0);
    assert(!is_white_space((seq!['='] + v)[0]));
    assert(trim_start_of(line) == (sk + seq!['=']) + v);
    lemma_trim_end_concat(sk + seq!['='], v);
    assert((sk + seq!['=']).last() == '=');
    let t = trimmed(line);
    assert(t == sk + seq!['='] + ev);
    lemma_trim_end_prefix(sk);
    assert(t[0] == trimmed(k)[0]);
    lemma_trim_start_suffix(k);
    assert forall|j: int| 0 <= j < sk.len() implies t[j] != '=' by {
        assert(t[j] == sk[j]);
        assert(sk[j] == k[k.len() - sk.len() + j]);
    }
    lemma_find_char(t, '=', 0, sk.len() as int);
    assert(t.subrange(0, sk.len() as int) == sk);
    assert(t.subrange(sk.len() + 1 as int, t.len() as int) == ev);
    lemma_trim_start_idempotent(k);
    lemma_trim_commutes(v);
    lemma_trim_end_idempotent(trim_start_of(v));
}

/// Parsing any lines followed by `k = v` (with a plain key and a value within
/// the limit) and then looking up the trimmed key gives the trimmed value,
/// whatever whitespace surrounds either side.
pub proof fn lemma_lookup_after_directive(lines: Seq<Seq<char>>, k: Seq<char>, v: Seq<char>)
    requires
        plain_key(k),
        trimmed(v).len() <= Config::MAX_VALUE_LENGTH,
    ensures
        line_entry(directive_line(k, v)) == Some((trimmed(k), trimmed(v), false)),
        !oversized(directive_line(k, v)),
        table_of_lines(lines.push(directive_line(k, v))).contains_key(trimmed(k)),
        table_of_lines(lines.push(directive_line(k, v)))[trimmed(k)] == trimmed(v),
{
    lemma_directive_entry(k, v);
    let all = lines.push(directive_line(k, v));
    assert(all.drop_last() == lines);
}

/// Blank lines and comment lines (`#`, `;`) never add to the table, whatever
/// came before them.
pub proof fn lemma_comment_lines_add_nothing(lines: Seq<Seq<char>>, line: Seq<char>)
    requires
        trimmed(line).len() == 0 || trimmed(line)[0] == '#' || trimmed(line)[0] == ';',
    ensures
        line_entry(line) is None,
        !oversized(line),
        table_of_lines(lines.push(line)) == table_of_lines(lines),
{
    assert(lines.push(line).drop_last() == lines);
}

/// For a value without surrounding whitespace the length limit is exact: one
/// character over it is an oversized value, a value of exactly the limit is
/// not.
pub proof fn lemma_value_length_boundary(k: Seq<char>, v: Seq<char>)
    requires
        plain_key(k),
        trimmed(v) == v,
    ensures
        oversized(directive_line(k, v)) <==> v.len() > Config::MAX_VALUE_LENGTH,
        v.len() == Config::MAX_VALUE_LENGTH + 1 ==> oversized(directive_line(k, v)),
        v.len() == Config::MAX_VALUE_LENGTH ==> !oversized(directive_line(k, v)),
{
    lemma_directive_entry(k, v);
}

/// Parses one line. Blank lines, comments and lines without `=` give
/// `Ok(None)`; a value longer than `Config::MAX_VALUE_LENGTH` characters is an
/// error, also on a line marked with `-`.
pub fn parse_line(line: &str) -> (r: Result<Option<Directive>, ParseError>)
    ensures
        match r {
            Ok(None) => line_entry(line@) is None,
            Ok(Some(d)) => line_entry(line@) == Some((d.key@, d.value@, d.ignore_errors))
                && !oversized(line@),
            Err(ParseError::ValueTooLong { key }) => oversized(line@) && (line_entry(line@)->0).0
                == key@,
        },
{
    let t = trim(line);
    if t.is_empty() || strip_prefix_char(t, '#').is_some() || strip_prefix_char(t, ';').is_some() {
        return Ok(None);
    }
    let (marked, body) = match strip_prefix_char(t, '-') {
        Some(rest) => (true, rest),
        None => (false, t),
    };
    proof {
        reveal_strlit("=");
    }
    assert("="@ == seq!['=']);
    match split_once(body, "=") {
        None => Ok(None),
        Some((k, v)) => {
            let key = trim(k);
            let value = trim(v);
            if longer_than(value, Config::MAX_VALUE_LENGTH) {
                Err(ParseError::ValueTooLong { key: String::from_str(key) })
            } else {
                Ok(
                    Some(
                        Directive {
                            key: String::from_str(key),
                            value: String::from_str(value),
                            ignore_errors: marked,
                        },
                    ),
                )
            }
        },
    }
}

/// Applies one line to a table under construction: an unmarked directive
/// binds its key, replacing an earlier value. On an oversized value the table
/// is left as it was and the error is returned.
pub fn apply_conf_line(map: &mut FxHashMap<String, String>, line: &str) -> (r: Result<
    (),
    ParseError,
>)
    ensures
        match r {
            Ok(()) => !oversized(line@) && map_entries(*final(map)) == table_after_line(
                map_entries(*old(map)),
                line@,
            ),
            Err(ParseError::ValueTooLong { key }) => oversized(line@) && (line_entry(line@)->0).0
                == key@ && map_entries(*final(map)) == map_entries(*old(map)),
        },
{
    match parse_line(line) {
        Ok(Some(d)) => {
            if !d.ignore_errors {
                map_insert(map, d.key, d.value);
            }
            Ok(())
        },
        Ok(None) => Ok(()),
        Err(e) => Err(e),
    }
}

/// Parses configuration text given as lines into a table keyed by the full
/// dotted key; a later line overwrites an earlier one with the same key. The
/// first line with an oversized value makes the whole parse fail.
pub fn parse_conf_to_map(lines: &Vec<String>) -> (r: Result<FxHashMap<String, String>, ParseError>)
    ensures
        r is Ok <==> forall|i: int| 0 <= i < lines@.len() ==> !oversized(#[trigger] lines@[i]@),
        r matches Ok(m) ==> map_entries(m) == table_of_lines(string_views(lines@)),
        r matches Err(ParseError::ValueTooLong { key }) ==> exists|i: int|
            0 <= i < lines@.len() && oversized(#[trigger] lines@[i]@) && (line_entry(lines@[i]@)->0).0
                == key@ && forall|j: int| 0 <= j < i ==> !oversized(#[trigger] lines@[j]@),
{
    let mut map = new_map();
    let mut i: usize = 0;
    while i < lines.len()
        invariant
            i <= lines@.len(),
            forall|j: int| 0 <= j < i ==> !oversized(#[trigger] lines@[j]@),
            map_entries(map) == table_of_lines(string_views(lines@).subrange(0, i as int)),
        decreases lines@.len() - i,
    {
        let ghost before = string_views(lines@).subrange(0, i as int);
        let ghost after = string_views(lines@).subrange(0, i + 1);
        match apply_conf_line(&mut map, lines[i].as_str()) {
            Ok(()) => {},
            Err(e) => {
                return Err(e);
            },
        }
        assert(after.drop_last() == before);
        i = i + 1;
    }
    assert(string_views(lines@).subrange(0, lines@.len() as int) == string_views(lines@));
    Ok(map)
}

} // verus!
