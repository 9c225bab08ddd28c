//! The schema: loading `key -> type` declarations, and checking every entry
//! of a configuration table against the type declared for its key.
use crate::numeric::{float_text, i64_text, is_float_text, parses_as_i64};
use crate::table::{
    lists_exactly, map_entries, map_get, map_insert, map_pairs, new_map, pair_views,
};
use crate::text::{same_text, split_at_first, split_once, string_views, strip_prefix_char, trim, trimmed};
use rustc_hash::FxHashMap;
use vstd::prelude::*;
use vstd::string::StringExecFns;

verus! {

/// Loads schema declarations.
pub struct LoadSchema;

/// What a schema line declares: `None` for a blank line, a `#` comment or a
/// line without `->`; otherwise the trimmed key and the trimmed type name.
pub open spec fn schema_entry(line: Seq<char>) -> Option<(Seq<char>, Seq<char>)> {
    let t = trimmed(line);
    if t.len() == 0 || t[0] == '#' {
        None
    } else {
        match split_at_first(t, seq!['-', '>']) {
            Some(parts) => Some((trimmed(parts.0), trimmed(parts.1))),
            None => None,
        }
    }
}

/// The schema that a sequence of lines declares; a later declaration of a key
/// replaces an earlier one.
pub open spec fn schema_of_lines(lines: Seq<Seq<char>>) -> Map<Seq<char>, Seq<char>>
    decreases lines.len(),
{
    if lines.len() == 0 {
        Map::empty()
    } else {
        let m = schema_of_lines(lines.drop_last());
        match schema_entry(lines.last()) {
            Some(e) => m.insert(e.0, e.1),
            None => m,
        }
    }
}

impl LoadSchema {
    /// Reads one schema line.
    pub fn parse_schema_line(&self, line: &str) -> (r: Option<(String, String)>)
        ensures
            match r {
                Some(e) => schema_entry(line@) == Some((e.0@, e.1@)),
                None => schema_entry(line@) is None,
            },
    {
        let t = trim(line);
        if t.is_empty() || strip_prefix_char(t, '#').is_some() {
            return None;
        }
        proof {
            reveal_strlit("->");
        }
        assert("->"@ == seq!['-', '>']);
        match split_once(t, "->") {
            Some((k, ty)) => Some((String::from_str(trim(k)), String::from_str(trim(ty)))),
            None => None,
        }
    }

    /// Builds the key → type-name table from the lines of a schema text.
    /// Lines without `->` are skipped, not errors.
    pub fn load_schema_lines(&self, lines: &Vec<String>) -> (r: FxHashMap<String, String>)
        ensures
            map_entries(r) == schema_of_lines(string_views(lines@)),
    {
        let mut schema = new_map();
        let mut i: usize = 0;
        while i < lines.len()
            invariant
                i <= lines@.len(),
                map_entries(schema) == schema_of_lines(string_views(lines@).subrange(0, i as int)),
            decreases lines@.len() - i,
        {
            let ghost before = string_views(lines@).subrange(0, i as int);
            let ghost after = string_views(lines@).subrange(0, i + 1);
            match self.parse_schema_line(lines[i].as_str()) {
                Some((k, ty)) => {
                    map_insert(&mut schema, k, ty);
                },
                None => {},
            }
            assert(after.drop_last() == before);
            i = i + 1;
        }
        assert(string_views(lines@).subrange(0, lines@.len() as int) == string_views(lines@));
        schema
    }
}

/// The pattern of a number written in decimal: an optional minus sign,
/// digits, and optionally a point followed by digits.
pub const NUMERIC_PATTERN: &'static str = r"^-?\d+(\.\d+)?$";

/// What compiling `pattern` with `regex::Regex::new` and matching `text`
/// against it gives: `None` where the pattern does not compile.
pub uninterp spec fn regex_outcome(pattern: Seq<char>, text: Seq<char>) -> Option<bool>;

/// Relies on `regex::Regex::new` and `Regex::is_match`: compiles the pattern
/// and tells whether it matches somewhere in `text`.
#[verifier::external_body]
fn regex_is_match(pattern: &str, text: &str) -> (r: Option<bool>)
    ensures
        r == regex_outcome(pattern@, text@),
{
    match regex::Regex::new(pattern) {
        Ok(re) => Some(re.is_match(text)),
        Err(_) => None,
    }
}

/// The value is written as a decimal number.
pub open spec fn looks_numeric(value: Seq<char>) -> bool {
    regex_outcome(NUMERIC_PATTERN@, value) == Some(true)
}

/// Whether `value` is written as a decimal number (`-?` digits, optionally a
/// point and digits; digits in the Unicode sense).
fn is_numeric(value: &str) -> (r: bool)
    ensures
        r == looks_numeric(value@),
{
    match regex_is_match(NUMERIC_PATTERN, value) {
        Some(b) => b,
        None => false,
    }
}

/// A value declared `string` is rejected when it is empty, reads as a boolean,
/// or reads as a number.
pub open spec fn string_rejected(value: Seq<char>, numeric: bool) -> bool {
    value.len() == 0 || value == "true"@ || value == "false"@ || numeric
}

/// A value declared `bool` must be exactly `true` or `false`.
pub open spec fn bool_rejected(value: Seq<char>) -> bool {
    value != "true"@ && value != "false"@
}

/// A value declared `int` must hold no `.` and be an `i64` in decimal.
pub open spec fn int_rejected(value: Seq<char>) -> bool {
    value.contains('.') || !i64_text(value)
}

/// A value declared `float` must be text that parses as an `f64`.
pub open spec fn float_rejected(value: Seq<char>) -> bool {
    !float_text(value)
}

/// The message for a value that does not have its declared type.
pub open spec fn mismatch_message(key: Seq<char>, value: Seq<char>, ty: Seq<char>) -> Seq<char> {
    "\x1b[31mError: キー '"@ + key + "' の値 '"@ + value + "' の型が一致しません。期待される型は '"@ + ty
        + "'\x1b[0m"@
}

/// The message for a key whose declared type is none of the supported ones.
pub open spec fn unsupported_message(key: Seq<char>, ty: Seq<char>) -> Seq<char> {
    "\x1b[31mError: キー '"@ + key + "' のスキーマ型 '"@ + ty + "' はサポートされていません。\x1b[0m"@
}

/// The message for a key that the schema does not declare.
pub open spec fn missing_message(key: Seq<char>) -> Seq<char> {
    "\x1b[31mError: キー '"@ + key + "' はスキーマに存在しません。\x1b[0m"@
}

/// The error that one entry of a table gives against a schema, if any.
pub open spec fn entry_error(key: Seq<char>, value: Seq<char>, schema: Map<Seq<char>, Seq<char>>) -> Option<
    Seq<char>,
> {
    if !schema.contains_key(key) {
        Some(missing_message(key))
    } else {
        let ty = schema[key];
        let rejected = if ty == "string"@ {
            string_rejected(value, looks_numeric(value))
        } else if ty == "bool"@ {
            bool_rejected(value)
        } else if ty == "int"@ {
            int_rejected(value)
        } else if ty == "float"@ {
            float_rejected(value)
        } else {
            true
        };
        if !rejected {
            None
        } else if ty == "string"@ || ty == "bool"@ || ty == "int"@ || ty == "float"@ {
            Some(mismatch_message(key, value, ty))
        } else {
            Some(unsupported_message(key, ty))
        }
    }
}

/// The errors of a listing of entries, in the listing's order: one for each
/// entry that has one.
pub open spec fn error_report(
    entries: Seq<(Seq<char>, Seq<char>)>,
    schema: Map<Seq<char>, Seq<char>>,
) -> Seq<Seq<char>>
    decreases entries.len(),
{
    if entries.len() == 0 {
        Seq::empty()
    } else {
        let earlier = error_report(entries.drop_last(), schema);
        match entry_error(entries.last().0, entries.last().1, schema) {
            Some(m) => earlier.push(m),
            None => earlier,
        }
    }
}

/// The number of entries of a listing that have an error.
pub open spec fn violation_count(
    entries: Seq<(Seq<char>, Seq<char>)>,
    schema: Map<Seq<char>, Seq<char>>,
) -> nat
    decreases entries.len(),
{
    if entries.len() == 0 {
        0
    } else {
        violation_count(entries.drop_last(), schema) + if entry_error(
            entries.last().0,
            entries.last().1,
            schema,
        ) is Some {
            1nat
        } else {
            0nat
        }
    }
}

/// Messages joined into one text, one per line.
pub open spec fn join_lines(msgs: Seq<Seq<char>>) -> Seq<char>
    decreases msgs.len(),
{
    if msgs.len() == 0 {
        Seq::empty()
    } else if msgs.len() == 1 {
        msgs[0]
    } else {
        join_lines(msgs.drop_last()) + seq!['\n'] + msgs.last()
    }
}

/// Every entry of the table is accepted by the schema.
pub open spec fn table_conforms(
    table: Map<Seq<char>, Seq<char>>,
    schema: Map<Seq<char>, Seq<char>>,
) -> bool {
    forall|k: Seq<char>| #[trigger] table.contains_key(k) ==> entry_error(k, table[k], schema) is None
}

fn push_mismatch(key: &str, value: &str, expected_type: &str, errors: &mut Vec<String>)
    ensures
        string_views(final(errors)@) == string_views(old(errors)@).push(
            mismatch_message(key@, value@, expected_type@),
        ),
{
    let mut m = String::from_str("\x1b[31mError: キー '");
    m.append(key);
    m.append("' の値 '");
    m.append(value);
    m.append("' の型が一致しません。期待される型は '");
    m.append(expected_type);
    m.append("'\x1b[0m");
    let ghost before = errors@;
    errors.push(m);
    assert(string_views(errors@) == string_views(before).push(m@));
}

/// The rule for `string` once it is known whether the value reads as a
/// number: rejected when empty, `true`, `false` or numeric.
pub fn string_value_rejected(value: &str, numeric: bool) -> (r: bool)
    ensures
        r == string_rejected(value@, numeric),
{
    value.is_empty() || same_text(value, "true") || same_text(value, "false") || numeric
}

/// Checks a value declared `string`; on a violation appends its message.
pub fn validate_string(key: &str, value: &str, expected_type: &str, errors: &mut Vec<String>)
    ensures
        if string_rejected(value@, looks_numeric(value@)) {
            string_views(final(errors)@) == string_views(old(errors)@).push(
                mismatch_message(key@, value@, expected_type@),
            )
        } else {
            final(errors)@ == old(errors)@
        },
{
    if string_value_rejected(value, is_numeric(value)) {
        push_mismatch(key, value, expected_type, errors);
    }
}

/// Checks a value declared `bool`; on a violation appends its message.
pub fn validate_bool(key: &str, value: &str, expected_type: &str, errors: &mut Vec<String>)
    ensures
        if bool_rejected(value@) {
            string_views(final(errors)@) == string_views(old(errors)@).push(
                mismatch_message(key@, value@, expected_type@),
            )
        } else {
            final(errors)@ == old(errors)@
        },
{
    if !same_text(value, "true") && !same_text(value, "false") {
        push_mismatch(key, value, expected_type, errors);
    }
}

/// Whether `value` holds the character `c`.
fn holds_char(value: &str, c: char) -> (r: bool)
    ensures
        r == value@.contains(c),
{
    for d in it: value.chars()
        invariant
            it.seq() == value@,
            forall|j: int| 0 <= j < it.index() ==> it.seq()[j] != c,
    {
        if d == c {
            assert(value@[it.index() as int] == c);
            return true;
        }
    }
    false
}

/// Checks a value declared `int`; on a violation appends its message.
pub fn validate_int(key: &str, value: &str, expected_type: &str, errors: &mut Vec<String>)
    ensures
        if int_rejected(value@) {
            string_views(final(errors)@) == string_views(old(errors)@).push(
                mismatch_message(key@, value@, expected_type@),
            )
        } else {
            final(errors)@ == old(errors)@
        },
{
    if holds_char(value, '.') || !parses_as_i64(value) {
        push_mismatch(key, value, expected_type, errors);
    }
}

/// Checks a value declared `float`; on a violation appends its message.
pub fn validate_float(key: &str, value: &str, expected_type: &str, errors: &mut Vec<String>)
    ensures
        if float_rejected(value@) {
            string_views(final(errors)@) == string_views(old(errors)@).push(
                mismatch_message(key@, value@, expected_type@),
            )
        } else {
            final(errors)@ == old(errors)@
        },
{
    if !is_float_text(value) {
        push_mismatch(key, value, expected_type, errors);
    }
}

/// Checks one entry against the schema and appends its error, if any.
fn validate_entry(
    key: &str,
    value: &str,
    schema: &FxHashMap<String, String>,
    errors: &mut Vec<String>,
)
    ensures
        match entry_error(key@, value@, map_entries(*schema)) {
            Some(m) => string_views(final(errors)@) == string_views(old(errors)@).push(m),
            None => final(errors)@ == old(errors)@,
        },
{
    match map_get(schema, key) {
        Some(expected_type) => {
            let ty = expected_type.as_str();
            if same_text(ty, "string") {
                validate_string(key, value, ty, errors);
            } else if same_text(ty, "bool") {
                validate_bool(key, value, ty, errors);
            } else if same_text(ty, "int") {
                validate_int(key, value, ty, errors);
            } else if same_text(ty, "float") {
                validate_float(key, value, ty, errors);
            } else {
                let mut m = String::from_str("\x1b[31mError: キー '");
                m.append(key);
                m.append("' のスキーマ型 '");
                m.append(ty);
                m.append("' はサポートされていません。\x1b[0m");
                let ghost before = errors@;
                errors.push(m);
                assert(string_views(errors@) == string_views(before).push(m@));
            }
        },
        None => {
            let mut m = String::from_str("\x1b[31mError: キー '");
            m.append(key);
            m.append("' はスキーマに存在しません。\x1b[0m");
            let ghost before = errors@;
            errors.push(m);
            assert(string_views(errors@) == string_views(before).push(m@));
        },
    }
}

/// The errors of a listing of entries against the schema, in the listing's
/// order, never stopping at the first.
pub fn schema_errors(entries: &Vec<(String, String)>, schema: &FxHashMap<String, String>) -> (r: Vec<
    String,
>)
    ensures
        string_views(r@) == error_report(pair_views(entries@), map_entries(*schema)),
{
    let mut errors: Vec<String> = Vec::new();
    let mut i: usize = 0;
    while i < entries.len()
        invariant
            i <= entries@.len(),
            string_views(errors@) == error_report(
                pair_views(entries@).subrange(0, i as int),
                map_entries(*schema),
            ),
        decreases entries@.len() - i,
    {
        let ghost before = pair_views(entries@).subrange(0, i as int);
        let ghost after = pair_views(entries@).subrange(0, i + 1);
        validate_entry(entries[i].0.as_str(), entries[i].1.as_str(), schema, &mut errors);
        assert(after.drop_last() == before);
        i = i + 1;
    }
    assert(pair_views(entries@).subrange(0, entries@.len() as int) == pair_views(entries@));
    errors
}

/// Joins messages into one text, one message per line.
pub fn join_messages(msgs: &Vec<String>) -> (r: String)
    ensures
        r@ == join_lines(string_views(msgs@)),
{
    let mut s = String::new();
    let mut i: usize = 0;
    while i < msgs.len()
        invariant
            i <= msgs@.len(),
            s@ == join_lines(string_views(msgs@).subrange(0, i as int)),
        decreases msgs@.len() - i,
    {
        let ghost before = string_views(msgs@).subrange(0, i as int);
        let ghost after = string_views(msgs@).subrange(0, i + 1);
        assert(after.drop_last() == before);
        if i > 0 {
            proof {
                reveal_strlit("\n");
            }
            s.append("\n");
        }
        s.append(msgs[i].as_str());
        i = i + 1;
    }
    assert(string_views(msgs@).subrange(0, msgs@.len() as int) == string_views(msgs@));
    s
}

/// An empty report has no violating entry, and the other way round.
proof fn lemma_report_empty(entries: Seq<(Seq<char>, Seq<char>)>, schema: Map<Seq<char>, Seq<char>>)
    ensures
        error_report(entries, schema).len() == 0 <==> forall|i: int|
            0 <= i < entries.len() ==> entry_error(
                #[trigger] entries[i].0,
                entries[i].1,
                schema,
            ) is None,
    decreases entries.len(),
{
    if entries.len() > 0 {
        let e = entries.drop_last();
        lemma_report_empty(e, schema);
        assert forall|i: int| 0 <= i < e.len() implies e[i] == entries[i] by {}
    }
}

/// `part` occurs in `whole` as a contiguous piece.
pub open spec fn holds_piece(whole: Seq<char>, part: Seq<char>) -> bool {
    exists|off: int|
        0 <= off && off + part.len() <= whole.len() && #[trigger] whole.subrange(
            off,
            off + part.len(),
        ) == part
}

/// The report of a listing holds the message of every violating entry, one
/// message per violating entry.
pub proof fn lemma_report_has_every_violation(
    entries: Seq<(Seq<char>, Seq<char>)>,
    schema: Map<Seq<char>, Seq<char>>,
)
    ensures
        error_report(entries, schema).len() == violation_count(entries, schema),
        forall|i: int|
            0 <= i < entries.len() && (#[trigger] entry_error(entries[i].0, entries[i].1, schema)) is Some
                ==> error_report(entries, schema).contains(
                entry_error(entries[i].0, entries[i].1, schema)->0,
            ),
    decreases entries.len(),
{
    if entries.len() > 0 {
        let e = entries.drop_last();
        lemma_report_has_every_violation(e, schema);
        let rep = error_report(entries, schema);
        let prev = error_report(e, schema);
        assert forall|i: int|
            0 <= i < entries.len() && (#[trigger] entry_error(
                entries[i].0,
                entries[i].1,
                schema,
            )) is Some implies rep.contains(entry_error(entries[i].0, entries[i].1, schema)->0) by {
            let m = entry_error(entries[i].0, entries[i].1, schema)->0;
            if i < e.len() {
                assert(e[i] == entries[i]);
                let j = choose|j: int| 0 <= j < prev.len() && prev[j] == m;
                assert(rep[j] == m);
            } else {
                assert(rep[rep.len() - 1] == m);
            }
        }
    }
}

/// Every message of a list occurs in the list joined into lines.
pub proof fn lemma_join_holds_each(msgs: Seq<Seq<char>>, i: int)
    requires
        0 <= i < msgs.len(),
    ensures
        holds_piece(join_lines(msgs), msgs[i]),
    decreases msgs.len(),
{
    let whole = join_lines(msgs);
    if msgs.len() == 1 {
        let off: int = 0;
        assert(whole.subrange(off, off + msgs[i].len()) == msgs[i]);
    } else {
        let head = join_lines(msgs.drop_last());
        assert(whole == head + seq!['\n'] + msgs.last());
        if i == msgs.len() - 1 {
            let off = whole.len() - msgs[i].len();
            assert(whole.subrange(off, off + msgs[i].len()) == msgs[i]);
        } else {
            lemma_join_holds_each(msgs.drop_last(), i);
            assert(msgs.drop_last()[i] == msgs[i]);
            let off = choose|off: int|
                0 <= off && off + msgs[i].len() <= head.len() && #[trigger] head.subrange(
                    off,
                    off + msgs[i].len(),
                ) == msgs[i];
            assert(whole.subrange(off, off + msgs[i].len()) == head.subrange(
                off,
                off + msgs[i].len(),
            ));
        }
    }
}

/// Validation never stops at the first violation: whatever order the table
/// lists its entries in, the failure text holds the message of every entry
/// that violates the schema, and the report has one message per violating
/// entry.
pub proof fn lemma_failure_text_has_every_violation(
    table: Map<Seq<char>, Seq<char>>,
    schema: Map<Seq<char>, Seq<char>>,
    order: Seq<(Seq<char>, Seq<char>)>,
)
    requires
        lists_exactly(order, table),
    ensures
        error_report(order, schema).len() == violation_count(order, schema),
        forall|k: Seq<char>|
            table.contains_key(k) && (#[trigger] entry_error(k, table[k], schema)) is Some
                ==> holds_piece(
                join_lines(error_report(order, schema)),
                entry_error(k, table[k], schema)->0,
            ),
{
    lemma_report_has_every_violation(order, schema);
    let rep = error_report(order, schema);
    assert forall|k: Seq<char>|
        table.contains_key(k) && (#[trigger] entry_error(k, table[k], schema)) is Some
            implies holds_piece(join_lines(rep), entry_error(k, table[k], schema)->0) by {
        let i = choose|i: int| 0 <= i < order.len() && order[i].0 == k;
        assert(entry_error(order[i].0, order[i].1, schema) is Some);
        let j = choose|j: int| 0 <= j < rep.len() && rep[j] == entry_error(k, table[k], schema)->0;
        lemma_join_holds_each(rep, j);
    }
}

/// Checks every entry of the table against the schema. `Ok` exactly when
/// every key is declared and its value has the declared type; otherwise the
/// error text holds one line per violating entry, in the order in which the
/// table lists its entries.
pub fn validate_against_schema(
    config_map: &FxHashMap<String, String>,
    schema: &FxHashMap<String, String>,
) -> (r: Result<(), String>)
    ensures
        r is Ok <==> table_conforms(map_entries(*config_map), map_entries(*schema)),
        r matches Err(text) ==> exists|order: Seq<(Seq<char>, Seq<char>)>|
            lists_exactly(order, map_entries(*config_map)) && text@ == join_lines(
                #[trigger] error_report(order, map_entries(*schema)),
            ),
{
    let pairs = map_pairs(config_map);
    let errors = schema_errors(&pairs, schema);
    let ghost order = pair_views(pairs@);
    let ghost table = map_entries(*config_map);
    let ghost sch = map_entries(*schema);
    proof {
        lemma_report_empty(order, sch);
        if errors@.len() == 0 {
            assert forall|k: Seq<char>| #[trigger] table.contains_key(k) implies entry_error(
                k,
                table[k],
                sch,
            ) is None by {
                let i = choose|i: int| 0 <= i < order.len() && order[i].0 == k;
                assert(entry_error(order[i].0, order[i].1, sch) is None);
            }
        } else {
            assert(string_views(errors@).len() > 0);
            let i = choose|i: int|
                0 <= i < order.len() && entry_error(order[i].0, order[i].1, sch) is Some;
            assert(table.contains_key(order[i].0));
        }
    }
    if errors.len() == 0 {
        Ok(())
    } else {
        let text = join_messages(&errors);
        Err(text)
    }
}

} // verus!
