//! The line aggregator: splits a data line into a tag group and three
//! integers, maps each tag through an optional key table, and counts each
//! resulting (name, year, quarter) combination. The parsed count field is
//! checked but each observation increments its entry by exactly one.

use vstd::prelude::*;
use crate::keytable::KeyTable;
use crate::table::{bump_map, AggregateKey, AggregateTable};
use crate::text::{parse_i32_spec, parse_int, split_spec, split_str, trim_spec};

verus! {

/// Why processing a line failed.
#[derive(Debug, Clone, Copy, PartialEq, Eq)]
pub enum LineError {
    /// The line has fewer than four comma-separated fields.
    MissingFields,
    /// A year, quarter or count field is not a decimal integer in range.
    BadNumber,
}

/// The names one tag contributes: with a key table, the canonical name bound
/// to the tag, or nothing where the table does not bind it; without a key
/// table, the raw tag itself.
pub open spec fn name_of(tag: Seq<char>, keys: Option<Map<Seq<char>, Seq<char>>>) -> Seq<
    Seq<char>,
> {
    match keys {
        None => seq![tag],
        Some(m) => if m.contains_key(tag) {
            seq![m[tag]]
        } else {
            Seq::empty()
        },
    }
}

/// The names a whole tag group contributes, in order.
pub open spec fn mapped_names(
    tags: Seq<Seq<char>>,
    keys: Option<Map<Seq<char>, Seq<char>>>,
) -> Seq<Seq<char>>
    decreases tags.len(),
{
    if tags.len() == 0 {
        Seq::empty()
    } else {
        mapped_names(tags.drop_last(), keys) + name_of(tags.last(), keys)
    }
}

/// `m` after one observation of (name, year, quarter) for each name in turn.
pub open spec fn bump_all(
    m: Map<(Seq<char>, int, int), int>,
    names: Seq<Seq<char>>,
    y: int,
    q: int,
) -> Map<(Seq<char>, int, int), int>
    decreases names.len(),
{
    if names.len() == 0 {
        m
    } else {
        bump_map(bump_all(m, names.drop_last(), y, q), (names.last(), y, q))
    }
}

/// The view of an optional key table.
pub open spec fn keys_view(keys: Option<&KeyTable>) -> Option<Map<Seq<char>, Seq<char>>> {
    match keys {
        None => None,
        Some(t) => Some(t@),
    }
}

/// What one data line does to a table: split on commas into at least four
/// fields, parse fields one through three as integers after trimming, split
/// the tag group on pipes, and count each mapped name once.
pub open spec fn line_effect(
    m: Map<(Seq<char>, int, int), int>,
    line: Seq<char>,
    keys: Option<Map<Seq<char>, Seq<char>>>,
) -> Result<Map<(Seq<char>, int, int), int>, LineError> {
    let fields = split_spec(line, ',');
    if fields.len() < 4 {
        Err(LineError::MissingFields)
    } else if parse_i32_spec(trim_spec(fields[1])) is None || parse_i32_spec(trim_spec(fields[2]))
        is None || parse_i32_spec(trim_spec(fields[3])) is None {
        Err(LineError::BadNumber)
    } else {
        let y = parse_i32_spec(trim_spec(fields[1]))->Some_0 as int;
        let q = parse_i32_spec(trim_spec(fields[2]))->Some_0 as int;
        Ok(bump_all(m, mapped_names(split_spec(fields[0], '|'), keys), y, q))
    }
}

/// What a sequence of data lines does to a table: lines apply in order and
/// the first malformed line aborts the run.
pub open spec fn run_lines(
    m: Map<(Seq<char>, int, int), int>,
    lines: Seq<Seq<char>>,
    keys: Option<Map<Seq<char>, Seq<char>>>,
) -> Result<Map<(Seq<char>, int, int), int>, LineError>
    decreases lines.len(),
{
    if lines.len() == 0 {
        Ok(m)
    } else if line_effect(m, lines[0], keys) is Err {
        line_effect(m, lines[0], keys)
    } else {
        run_lines(line_effect(m, lines[0], keys)->Ok_0, lines.drop_first(), keys)
    }
}

/// The data lines of an input: everything after the header line, up to `cap`
/// of them; the header never counts against the cap.
pub open spec fn data_lines(lines: Seq<Seq<char>>, cap: int) -> Seq<Seq<char>> {
    if lines.len() == 0 {
        Seq::empty()
    } else if lines.len() - 1 <= cap {
        lines.drop_first()
    } else {
        lines.drop_first().take(cap)
    }
}

/// Applies one data line to the table. A malformed line reports its error
/// and leaves the table unchanged.
pub fn process_line(line: &str, table: &mut AggregateTable, keys: Option<&KeyTable>) -> (r: Result<
    (),
    LineError,
>)
    requires
        old(table).wf(),
        keys matches Some(t) ==> t.wf(),
    ensures
        final(table).wf(),
        match r {
            Ok(_) => line_effect(old(table)@, line@, keys_view(keys)) == Ok::<
                Map<(Seq<char>, int, int), int>,
                LineError,
            >(final(table)@),
            Err(e) => final(table)@ == old(table)@ && line_effect(old(table)@, line@, keys_view(keys))
                == Err::<Map<(Seq<char>, int, int), int>, LineError>(e),
        },
{
    let fields = split_str(line, ',');
    let ghost fv = fields@.map_values(|t: String| t@);
    if fields.len() < 4 {
        return Err(LineError::MissingFields);
    }
    proof {
        assert(fv[1] == fields@[1]@ && fv[2] == fields@[2]@ && fv[3] == fields@[3]@);
    }
    let year = match parse_int(fields[1].as_str()) {
        Some(v) => v,
        None => {
            return Err(LineError::BadNumber);
        },
    };
    let quarter = match parse_int(fields[2].as_str()) {
        Some(v) => v,
        None => {
            return Err(LineError::BadNumber);
        },
    };
    let _count = match parse_int(fields[3].as_str()) {
        Some(v) => v,
        None => {
            return Err(LineError::BadNumber);
        },
    };
    let tags = split_str(fields[0].as_str(), '|');
    let ghost tv = tags@.map_values(|t: String| t@);
    proof {
        assert(fv[0] == fields@[0]@);
        assert(line_effect(old(table)@, line@, keys_view(keys)) == Ok::<
            Map<(Seq<char>, int, int), int>,
            LineError,
        >(bump_all(old(table)@, mapped_names(tv, keys_view(keys)), year as int, quarter as int)));
    }
    let n: usize = tags.len();
    let mut i: usize = 0;
    while i < n
        invariant
            i <= n,
            n == tags@.len(),
            tv == tags@.map_values(|t: String| t@),
            keys matches Some(t) ==> t.wf(),
            table.wf(),
            table@ == bump_all(
                old(table)@,
                mapped_names(tv.take(i as int), keys_view(keys)),
                year as int,
                quarter as int,
            ),
        decreases n - i,
    {
        proof {
            assert(tv.take(i + 1).drop_last() =~= tv.take(i as int));
            assert(tv.take(i + 1).last() == tv[i as int]);
            assert(tags@[i as int]@ == tv[i as int]);
        }
        let ghost names_before = mapped_names(tv.take(i as int), keys_view(keys));
        match keys {
            None => {
                proof {
                    assert(mapped_names(tv.take(i + 1), keys_view(keys)) =~= names_before.push(
                        tv[i as int],
                    ));
                    assert(names_before.push(tv[i as int]).drop_last() =~= names_before);
                }
                let key = AggregateKey { name: tags[i].clone(), year, quarter };
                table.bump(key);
            },
            Some(kt) => {
                match kt.lookup(tags[i].as_str()) {
                    Some(name) => {
                        proof {
                            assert(mapped_names(tv.take(i + 1), keys_view(keys))
                                =~= names_before.push(kt@[tv[i as int]]));
                            assert(names_before.push(kt@[tv[i as int]]).drop_last()
                                =~= names_before);
                        }
                        let key = AggregateKey { name: name.clone(), year, quarter };
                        table.bump(key);
                    },
                    None => {
                        proof {
                            assert(mapped_names(tv.take(i + 1), keys_view(keys))
                                =~= names_before);
                        }
                    },
                }
            },
        }
        i = i + 1;
    }
    proof {
        assert(tv.take(n as int) =~= tv);
    }
    Ok(())
}

/// Aggregates a whole input from a fresh table: the first line is the header
/// and is skipped; then at most `cap` data lines are processed in order. The
/// first malformed line aborts the run, and no table is returned.
pub fn aggregate_lines(lines: &Vec<String>, cap: usize, keys: Option<&KeyTable>) -> (r: Result<
    AggregateTable,
    LineError,
>)
    requires
        keys matches Some(t) ==> t.wf(),
    ensures
        match r {
            Ok(t) => t.wf() && run_lines(
                Map::empty(),
                data_lines(lines@.map_values(|s: String| s@), cap as int),
                keys_view(keys),
            ) == Ok::<Map<(Seq<char>, int, int), int>, LineError>(t@),
            Err(e) => run_lines(
                Map::empty(),
                data_lines(lines@.map_values(|s: String| s@), cap as int),
                keys_view(keys),
            ) == Err::<Map<(Seq<char>, int, int), int>, LineError>(e),
        },
{
    let mut table = AggregateTable::new();
    let n: usize = lines.len();
    let ghost lv = lines@.map_values(|s: String| s@);
    let ghost dl = data_lines(lv, cap as int);
    if n == 0 {
        proof {
            assert(dl =~= Seq::<Seq<char>>::empty());
        }
        return Ok(table);
    }
    proof {
        assert(dl.skip(0) =~= dl);
    }
    let mut i: usize = 1;
    while i < n && i - 1 < cap
        invariant
            1 <= i <= n,
            i - 1 <= cap,
            n == lines@.len(),
            lv == lines@.map_values(|s: String| s@),
            dl == data_lines(lv, cap as int),
            dl.len() == (if n - 1 <= cap {
                n - 1
            } else {
                cap as int
            }),
            keys matches Some(t) ==> t.wf(),
            table.wf(),
            run_lines(Map::empty(), dl, keys_view(keys)) == run_lines(
                table@,
                dl.skip(i - 1),
                keys_view(keys),
            ),
        decreases n - i,
    {
        proof {
            assert(dl[i - 1] == lv[i as int]);
            assert(lines@[i as int]@ == lv[i as int]);
            assert(dl.skip(i - 1)[0] == dl[i - 1]);
            assert(dl.skip(i - 1).drop_first() =~= dl.skip(i as int));
        }
        match process_line(lines[i].as_str(), &mut table, keys) {
            Ok(_) => {},
            Err(e) => {
                return Err(e);
            },
        }
        i = i + 1;
    }
    proof {
        assert(dl.skip(i - 1) =~= Seq::<Seq<char>>::empty());
    }
    Ok(table)
}

/// The (name, year, quarter) combinations a group of names yields.
pub open spec fn combos(names: Seq<Seq<char>>, y: int, q: int) -> Set<(Seq<char>, int, int)> {
    Set::new(
        |k: (Seq<char>, int, int)|
            exists|i: int| 0 <= i < names.len() && k == (names[i], y, q),
    )
}

/// Law: counting a group of names adds exactly their combinations to the
/// table's keys, so the table never holds more distinct keys than distinct
/// (name, year, quarter) combinations were seen.
pub proof fn lemma_keys_are_combos(
    m: Map<(Seq<char>, int, int), int>,
    names: Seq<Seq<char>>,
    y: int,
    q: int,
)
    ensures
        bump_all(m, names, y, q).dom() == m.dom() + combos(names, y, q),
    decreases names.len(),
{
    if names.len() == 0 {
        assert(combos(names, y, q) =~= Set::<(Seq<char>, int, int)>::empty());
        assert(bump_all(m, names, y, q).dom() =~= m.dom() + combos(names, y, q));
    } else {
        lemma_keys_are_combos(m, names.drop_last(), y, q);
        let prev = combos(names.drop_last(), y, q);
        let last = (names.last(), y, q);
        assert forall|k: (Seq<char>, int, int)| combos(names, y, q).contains(k) implies prev.insert(
            last,
        ).contains(k) by {
            let i = choose|i: int| 0 <= i < names.len() && k == (names[i], y, q);
            if i < names.len() - 1 {
                assert(names.drop_last()[i] == names[i]);
            }
        }
        assert forall|k: (Seq<char>, int, int)| prev.insert(last).contains(k) implies combos(
            names,
            y,
            q,
        ).contains(k) by {
            if prev.contains(k) {
                let i = choose|i: int| 0 <= i < names.len() - 1 && k == (names.drop_last()[i], y, q);
                assert(names[i] == names.drop_last()[i]);
            } else {
                assert(k == (names[names.len() - 1], y, q));
            }
        }
        assert(combos(names, y, q) =~= prev.insert(last));
        assert(bump_all(m, names, y, q).dom() =~= m.dom() + combos(names, y, q));
    }
}

/// How many names in a group equal `n`.
pub open spec fn count_of(names: Seq<Seq<char>>, n: Seq<char>) -> int {
    names.filter(|x: Seq<char>| x == n).len() as int
}

/// Law: a key's count equals the count it started with plus the number of
/// times its name was observed for its year and quarter, saturating at
/// `u64::MAX`; a key is present exactly when it started present or its name
/// was observed at least once.
pub proof fn lemma_count_is_observations(
    m: Map<(Seq<char>, int, int), int>,
    names: Seq<Seq<char>>,
    y: int,
    q: int,
    n: Seq<char>,
)
    requires
        m.contains_key((n, y, q)) ==> 0 <= m[(n, y, q)] <= u64::MAX,
    ensures
        bump_all(m, names, y, q).contains_key((n, y, q)) <==> (m.contains_key((n, y, q))
            || count_of(names, n) > 0),
        bump_all(m, names, y, q).contains_key((n, y, q)) ==> bump_all(m, names, y, q)[(n, y, q)]
            == ({
            let total = (if m.contains_key((n, y, q)) {
                m[(n, y, q)]
            } else {
                0
            }) + count_of(names, n);
            if total <= u64::MAX {
                total
            } else {
                u64::MAX as int
            }
        }),
    decreases names.len(),
{
    reveal(Seq::filter);
    let k = (n, y, q);
    if names.len() == 0 {
        assert(count_of(names, n) == 0);
    } else {
        lemma_count_is_observations(m, names.drop_last(), y, q, n);
        assert(names.filter(|x: Seq<char>| x == n) == (if names.last() == n {
            names.drop_last().filter(|x: Seq<char>| x == n).push(names.last())
        } else {
            names.drop_last().filter(|x: Seq<char>| x == n)
        }));
        if names.last() == n {
            assert(count_of(names, n) == count_of(names.drop_last(), n) + 1);
        } else {
            assert((names.last(), y, q) != k);
        }
    }
}

/// The combinations one data line yields: those of its mapped tag group,
/// under its year and quarter.
pub open spec fn line_combos(line: Seq<char>, keys: Option<Map<Seq<char>, Seq<char>>>) -> Set<
    (Seq<char>, int, int),
> {
    let fields = split_spec(line, ',');
    combos(
        mapped_names(split_spec(fields[0], '|'), keys),
        parse_i32_spec(trim_spec(fields[1]))->Some_0 as int,
        parse_i32_spec(trim_spec(fields[2]))->Some_0 as int,
    )
}

/// The combinations a whole sequence of data lines yields.
pub open spec fn lines_combos(
    lines: Seq<Seq<char>>,
    keys: Option<Map<Seq<char>, Seq<char>>>,
) -> Set<(Seq<char>, int, int)>
    decreases lines.len(),
{
    if lines.len() == 0 {
        Set::empty()
    } else {
        line_combos(lines[0], keys) + lines_combos(lines.drop_first(), keys)
    }
}

/// Law: a successful run puts exactly the combinations its lines yield into
/// the table, so the table never holds more distinct keys than distinct
/// combinations were seen over the whole run.
pub proof fn lemma_run_keys(
    m: Map<(Seq<char>, int, int), int>,
    lines: Seq<Seq<char>>,
    keys: Option<Map<Seq<char>, Seq<char>>>,
)
    requires
        run_lines(m, lines, keys) is Ok,
    ensures
        run_lines(m, lines, keys)->Ok_0.dom() == m.dom() + lines_combos(lines, keys),
    decreases lines.len(),
{
    if lines.len() == 0 {
        assert(m.dom() + lines_combos(lines, keys) =~= m.dom());
    } else {
        let fields = split_spec(lines[0], ',');
        let names = mapped_names(split_spec(fields[0], '|'), keys);
        let y = parse_i32_spec(trim_spec(fields[1]))->Some_0 as int;
        let q = parse_i32_spec(trim_spec(fields[2]))->Some_0 as int;
        let m2 = line_effect(m, lines[0], keys)->Ok_0;
        assert(m2 == bump_all(m, names, y, q));
        lemma_keys_are_combos(m, names, y, q);
        lemma_run_keys(m2, lines.drop_first(), keys);
        assert((m.dom() + line_combos(lines[0], keys)) + lines_combos(lines.drop_first(), keys)
            =~= m.dom() + lines_combos(lines, keys));
    }
}

/// Law: a run is repeatable: runs of the same lines, cap and key table from
/// fresh tables yield identical table contents.
pub proof fn lemma_run_repeatable(
    lines: Seq<Seq<char>>,
    cap: int,
    keys: Option<Map<Seq<char>, Seq<char>>>,
    t1: Map<(Seq<char>, int, int), int>,
    t2: Map<(Seq<char>, int, int), int>,
)
    requires
        run_lines(Map::empty(), data_lines(lines, cap), keys) == Ok::<
            Map<(Seq<char>, int, int), int>,
            LineError,
        >(t1),
        run_lines(Map::empty(), data_lines(lines, cap), keys) == Ok::<
            Map<(Seq<char>, int, int), int>,
            LineError,
        >(t2),
    ensures
        t1 == t2,
{
}

/// Law: a tag the key table does not bind contributes no entry: removing it
/// from the tag group leaves the mapped names unchanged.
pub proof fn lemma_absent_tag_dropped(tags: Seq<Seq<char>>, km: Map<Seq<char>, Seq<char>>, i: int)
    requires
        0 <= i < tags.len(),
        !km.contains_key(tags[i]),
    ensures
        mapped_names(tags.remove(i), Some(km)) == mapped_names(tags, Some(km)),
    decreases tags.len(),
{
    if i == tags.len() - 1 {
        assert(tags.remove(i) =~= tags.drop_last());
        assert(mapped_names(tags.drop_last(), Some(km)) + Seq::<Seq<char>>::empty()
            =~= mapped_names(tags.drop_last(), Some(km)));
    } else {
        assert(tags.remove(i).drop_last() =~= tags.drop_last().remove(i));
        assert(tags.remove(i).last() == tags.last());
        assert(tags.drop_last()[i] == tags[i]);
        lemma_absent_tag_dropped(tags.drop_last(), km, i);
    }
}

} // verus!
