//! The decisions of a directory walk: each configuration file is taken at
//! most once, its table is merged into the aggregate with the later value
//! winning, and per-file errors are collected rather than ending the walk.
//! Finding the files is left to the caller.
use crate::schema::{error_report, join_lines, table_conforms, validate_against_schema};
use crate::table::{
    lists_exactly, map_entries, map_insert, map_pairs, pair_views, set_contains, set_insert,
    set_members,
};
use crate::text::string_views;
use rustc_hash::{FxHashMap, FxHashSet};
use vstd::prelude::*;

verus! {

/// The state of a walk: the paths already taken, the merged table, and the
/// errors collected so far.
pub type WalkView = (Set<Seq<char>>, Map<Seq<char>, Seq<char>>, Seq<Seq<char>>);

/// What reading and parsing one file gave, as plain values.
pub open spec fn outcome_view(outcome: Result<FxHashMap<String, String>, String>) -> Result<
    Map<Seq<char>, Seq<char>>,
    Seq<char>,
> {
    match outcome {
        Ok(t) => Ok(map_entries(t)),
        Err(e) => Err(e@),
    }
}

/// One file of the walk. A path already taken changes nothing. Otherwise the
/// path is taken, and either its table is merged in (its values win) or its
/// error is appended.
pub open spec fn walk_step(
    state: WalkView,
    path: Seq<char>,
    outcome: Result<Map<Seq<char>, Seq<char>>, Seq<char>>,
) -> WalkView {
    if state.0.contains(path) {
        state
    } else {
        match outcome {
            Ok(t) => (state.0.insert(path), state.1.union_prefer_right(t), state.2),
            Err(e) => (state.0.insert(path), state.1, state.2.push(e)),
        }
    }
}

/// Merges `from` into `into`; where both bind a key, the value of `from`
/// wins.
pub fn merge_table(into: &mut FxHashMap<String, String>, from: &FxHashMap<String, String>)
    ensures
        map_entries(*final(into)) == map_entries(*old(into)).union_prefer_right(map_entries(*from)),
{
    let pairs = map_pairs(from);
    let ghost start = map_entries(*into);
    let ghost pv = pair_views(pairs@);
    let ghost src = map_entries(*from);
    let mut i: usize = 0;
    while i < pairs.len()
        invariant
            i <= pairs@.len(),
            pv == pair_views(pairs@),
            lists_exactly(pv, src),
            start == map_entries(*old(into)),
            forall|k: Seq<char>| #[trigger]
                map_entries(*into).contains_key(k) <==> start.contains_key(k) || exists|j: int|
                    0 <= j < i && pv[j].0 == k,
            forall|j: int|
                0 <= j < i ==> #[trigger] map_entries(*into)[pv[j].0] == pv[j].1,
            forall|k: Seq<char>|
                start.contains_key(k) && !(exists|j: int| 0 <= j < i && pv[j].0 == k)
                    ==> #[trigger] map_entries(*into)[k] == start[k],
        decreases pairs@.len() - i,
    {
        let ghost before = map_entries(*into);
        let key = pairs[i].0.clone();
        let value = pairs[i].1.clone();
        proof {
            assert(pv[i as int] == (pairs@[i as int].0@, pairs@[i as int].1@));
        }
        map_insert(into, key, value);
        proof {
            assert forall|j: int| 0 <= j < i + 1 implies #[trigger] map_entries(*into)[pv[j].0]
                == pv[j].1 by {
                if j < i {
                    assert(pv[j].0 != pv[i as int].0);
                }
            }
            assert forall|k: Seq<char>|
                start.contains_key(k) && !(exists|j: int| 0 <= j < i + 1 && pv[j].0 == k)
                    implies #[trigger] map_entries(*into)[k] == start[k] by {
                assert(pv[i as int].0 != k);
            }
        }
        i = i + 1;
    }
    proof {
        assert(map_entries(*into) =~= start.union_prefer_right(src)) by {
            assert forall|k: Seq<char>| #[trigger]
                map_entries(*into).contains_key(k) <==> start.union_prefer_right(
                    src,
                ).contains_key(k) by {
                if src.contains_key(k) {
                    let j = choose|j: int| 0 <= j < pv.len() && pv[j].0 == k;
                }
            }
            assert forall|k: Seq<char>| #[trigger]
                map_entries(*into).contains_key(k) implies map_entries(*into)[k]
                == start.union_prefer_right(src)[k] by {
                if src.contains_key(k) {
                    let j = choose|j: int| 0 <= j < pv.len() && pv[j].0 == k;
                    assert(map_entries(*into)[pv[j].0] == pv[j].1);
                } else {
                    if exists|j: int| 0 <= j < pv.len() && pv[j].0 == k {
                        let j = choose|j: int| 0 <= j < pv.len() && pv[j].0 == k;
                        assert(src.contains_key(pv[j].0));
                    }
                }
            }
        }
    }
}

/// Whether the walk has already taken the file at `path`; such a file need
/// not be read again.
pub fn already_parsed(parsed_files: &FxHashSet<String>, path: &str) -> (r: bool)
    ensures
        r == set_members(*parsed_files).contains(path@),
{
    set_contains(parsed_files, path)
}

/// Takes one configuration file into the walk: `path` is its canonical path,
/// `outcome` what reading and parsing it gave. A path taken before changes
/// nothing; otherwise the path is marked as taken and either the file's table
/// is merged into `result_map` (the file's values win) or its error is
/// appended to `errors`.
pub fn parse_conf_file(
    path: String,
    outcome: Result<FxHashMap<String, String>, String>,
    parsed_files: &mut FxHashSet<String>,
    result_map: &mut FxHashMap<String, String>,
    errors: &mut Vec<String>,
)
    ensures
        (set_members(*final(parsed_files)), map_entries(*final(result_map)), string_views(
            final(errors)@,
        )) == walk_step(
            (set_members(*old(parsed_files)), map_entries(*old(result_map)), string_views(
                old(errors)@,
            )),
            path@,
            outcome_view(outcome),
        ),
{
    if already_parsed(parsed_files, path.as_str()) {
        return ;
    }
    match outcome {
        Ok(table) => {
            merge_table(result_map, &table);
        },
        Err(e) => {
            let ghost before = errors@;
            errors.push(e);
            assert(string_views(errors@) == string_views(before).push(e@));
        },
    }
    set_insert(parsed_files, path);
}

/// Ends a walk: validates the merged table against the schema and gathers
/// every problem. `Ok` exactly when no file failed and the table conforms;
/// otherwise the file errors in the order collected, followed by the
/// validation report when there is one.
pub fn conclude_walk(
    result_map: &FxHashMap<String, String>,
    schema: &FxHashMap<String, String>,
    errors: Vec<String>,
) -> (r: Result<(), Vec<String>>)
    ensures
        r is Ok <==> errors@.len() == 0 && table_conforms(
            map_entries(*result_map),
            map_entries(*schema),
        ),
        r matches Err(all) ==> {
            if table_conforms(map_entries(*result_map), map_entries(*schema)) {
                all@ == errors@
            } else {
                &&& string_views(all@).drop_last() == string_views(errors@)
                &&& exists|order: Seq<(Seq<char>, Seq<char>)>|
                    lists_exactly(order, map_entries(*result_map)) && string_views(all@).last()
                        == join_lines(#[trigger] error_report(order, map_entries(*schema)))
            }
        },
{
    let mut all = errors;
    match validate_against_schema(result_map, schema) {
        Ok(()) => {
            if all.len() == 0 {
                Ok(())
            } else {
                Err(all)
            }
        },
        Err(report) => {
            let ghost before = all@;
            all.push(report);
            assert(string_views(all@).drop_last() == string_views(before));
            Err(all)
        },
    }
}

/// Taking a path a second time in the same walk, whatever reading it gives
/// then, leaves the walk as taking it once did.
pub proof fn lemma_reparse_changes_nothing(
    state: WalkView,
    path: Seq<char>,
    first: Result<Map<Seq<char>, Seq<char>>, Seq<char>>,
    second: Result<Map<Seq<char>, Seq<char>>, Seq<char>>,
)
    ensures
        walk_step(walk_step(state, path, first), path, second) == walk_step(state, path, first),
{
}

} // verus!
