//! The resolution engine: one pass over a snippet that obtains a value for
//! every distinct placeholder name and renders the template.
//!
//! Per snippet: an optional bulk-resolution function runs first and seeds
//! several variables from one chosen row; then every placeholder is visited
//! in the canonical resolution sequence — those with an explicit `order`
//! first, ascending, ties and the rest in template order — and resolved once
//! per name, from its lookup rows or from a prompt. Any failure aborts the
//! run; no partial command is produced.

use vstd::prelude::*;
use vstd::string::StrSliceExecFns;
use vstd::string::StringExecFns;
use crate::errors::ResolveError;
use crate::model::{Function, Placeholder, Snippet};
use crate::provider::{LookupExecutor, ValueProvider};
use crate::render::{render_command, render_spec, lemma_render_token_free};
use crate::parser::token_free;
use crate::text::{split_whitespace, split_ws};
use crate::vars::VarMap;

verus! {

// --- command output, split into rows and fields ---

/// Position of the newline that ends the line beginning at `i`, or the end
/// of the text.
pub open spec fn line_end(s: Seq<char>, i: int) -> int
    decreases s.len() - i,
{
    if i < 0 || i >= s.len() || s[i] == '\n' {
        i
    } else {
        line_end(s, i + 1)
    }
}

pub proof fn lemma_line_end(s: Seq<char>, i: int)
    requires
        0 <= i <= s.len(),
    ensures
        i <= line_end(s, i) <= s.len(),
    decreases s.len() - i,
{
    if i < s.len() && s[i] != '\n' {
        lemma_line_end(s, i + 1);
    }
}

/// The rows of an external command's output: one row per line, each split
/// into whitespace-separated fields.
pub open spec fn spec_records_from(s: Seq<char>, i: int) -> Seq<Seq<Seq<char>>>
    decreases s.len() + 1 - i,
    via spec_records_from_dec
{
    if i < 0 || i >= s.len() {
        Seq::empty()
    } else {
        seq![split_ws(s.subrange(i, line_end(s, i)))] + spec_records_from(s, line_end(s, i) + 1)
    }
}

#[via_fn]
proof fn spec_records_from_dec(s: Seq<char>, i: int) {
    if 0 <= i && i < s.len() {
        lemma_line_end(s, i);
    }
}

pub open spec fn spec_records(s: Seq<char>) -> Seq<Seq<Seq<char>>> {
    spec_records_from(s, 0)
}

/// The character-sequence view of one row.
pub open spec fn row_view(r: Vec<String>) -> Seq<Seq<char>> {
    r@.map_values(|f: String| f@)
}

/// The character-sequence view of a row set.
pub open spec fn rows_view(rs: Seq<Vec<String>>) -> Seq<Seq<Seq<char>>> {
    rs.map_values(|r: Vec<String>| row_view(r))
}

/// Splits captured command output into rows on newlines, and each row into
/// whitespace-separated fields.
pub fn split_records(output: &str) -> (r: Vec<Vec<String>>)
    ensures
        rows_view(r@) == spec_records(output@),
{
    let n: usize = output.unicode_len();
    let mut out: Vec<Vec<String>> = Vec::new();
    let mut i: usize = 0;
    while i < n
        invariant
            n == output@.len(),
            i <= n + 1,
            spec_records(output@) == rows_view(out@) + spec_records_from(output@, i as int),
        decreases n + 1 - i,
    {
        let mut j: usize = i;
        while j < n && output.get_char(j) != '\n'
            invariant
                n == output@.len(),
                i <= j <= n,
                line_end(output@, i as int) == line_end(output@, j as int),
            decreases n - j,
        {
            j = j + 1;
        }
        assert(line_end(output@, j as int) == j as int);
        let line = output.substring_char(i, j);
        let fields = split_whitespace(line);
        proof {
            assert(row_view(fields) =~= split_ws(line@));
            assert(rows_view(out@.push(fields)) =~= rows_view(out@).push(row_view(fields)));
            assert(rows_view(out@).push(row_view(fields)) + spec_records_from(
                output@,
                j as int + 1,
            ) =~= rows_view(out@) + (seq![split_ws(line@)] + spec_records_from(
                output@,
                j as int + 1,
            )));
        }
        out.push(fields);
        if j < n {
            i = j + 1;
        } else {
            i = n;
        }
    }
    proof {
        assert(rows_view(out@) + spec_records_from(output@, i as int) =~= rows_view(out@));
    }
    out
}

/// Copies one row, field by field.
fn clone_row(r: &Vec<String>) -> (c: Vec<String>)
    ensures
        c@ == r@,
{
    let mut c: Vec<String> = Vec::new();
    let mut i: usize = 0;
    while i < r.len()
        invariant
            i <= r@.len(),
            c@ == r@.take(i as int),
        decreases r@.len() - i,
    {
        c.push(r[i].clone());
        proof {
            assert(c@ =~= r@.take(i as int + 1));
        }
        i = i + 1;
    }
    proof {
        assert(r@.take(r@.len() as int) =~= r@);
    }
    c
}

/// Copies a row set, so that the rows can both be shown and be read from.
pub fn clone_records(rs: &Vec<Vec<String>>) -> (c: Vec<Vec<String>>)
    ensures
        c@.len() == rs@.len(),
        forall|k: int| 0 <= k < rs@.len() ==> (#[trigger] c@[k])@ == rs@[k]@,
{
    let mut c: Vec<Vec<String>> = Vec::new();
    let mut i: usize = 0;
    while i < rs.len()
        invariant
            i <= rs@.len(),
            c@.len() == i,
            forall|k: int| 0 <= k < i ==> (#[trigger] c@[k])@ == rs@[k]@,
        decreases rs@.len() - i,
    {
        c.push(clone_row(&rs[i]));
        i = i + 1;
    }
    c
}

// --- the canonical resolution sequence ---

/// Whether the placeholder at index `x` is resolved before the one at index
/// `y`: placeholders with an explicit `order` come first, ascending, ties
/// broken by template position; the rest follow in template position.
pub open spec fn spec_precedes(phs: Seq<Placeholder>, x: int, y: int) -> bool {
    match (phs[x].order, phs[y].order) {
        (Some(a), Some(b)) => a < b || (a == b && x < y),
        (Some(a), None) => true,
        (None, Some(b)) => false,
        (None, None) => x < y,
    }
}

fn precedes_at(phs: &Vec<Placeholder>, x: usize, y: usize) -> (r: bool)
    requires
        x < phs@.len(),
        y < phs@.len(),
    ensures
        r == spec_precedes(phs@, x as int, y as int),
{
    match (phs[x].order, phs[y].order) {
        (Some(a), Some(b)) => a < b || (a == b && x < y),
        (Some(_), None) => true,
        (None, Some(_)) => false,
        (None, None) => x < y,
    }
}

/// How many of the first `k` placeholders carry an explicit order.
pub open spec fn count_some(phs: Seq<Placeholder>, k: int) -> int
    decreases k,
{
    if k <= 0 {
        0
    } else {
        count_some(phs, k - 1) + if phs[k - 1].order is Some {
            1int
        } else {
            0int
        }
    }
}

/// How many of the first `k` placeholders carry no explicit order.
pub open spec fn count_none(phs: Seq<Placeholder>, k: int) -> int
    decreases k,
{
    if k <= 0 {
        0
    } else {
        count_none(phs, k - 1) + if phs[k - 1].order is None {
            1int
        } else {
            0int
        }
    }
}

proof fn lemma_counts_sum(phs: Seq<Placeholder>, k: int)
    requires
        0 <= k,
    ensures
        count_some(phs, k) + count_none(phs, k) == k,
    decreases k,
{
    if k > 0 {
        lemma_counts_sum(phs, k - 1);
    }
}

/// The canonical resolution sequence of a placeholder list: a permutation of
/// the indices, sorted by [`spec_precedes`].
pub fn resolution_order(phs: &Vec<Placeholder>) -> (r: Vec<usize>)
    ensures
        r@.len() == phs@.len(),
        forall|k: int| 0 <= k < r@.len() ==> (#[trigger] r@[k]) < phs@.len(),
        forall|a: int, b: int|
            0 <= a < b < r@.len() ==> spec_precedes(phs@, r@[a] as int, r@[b] as int),
        forall|i: int| 0 <= i < phs@.len() ==> #[trigger] r@.contains(i as usize),
{
    let n: usize = phs.len();
    let mut ordered: Vec<usize> = Vec::new();
    let mut idx: usize = 0;
    while idx < n
        invariant
            n == phs@.len(),
            idx <= n,
            forall|k: int|
                0 <= k < ordered@.len() ==> (#[trigger] ordered@[k]) < idx && phs@[ordered@[k] as int].order is Some,
            forall|a: int, b: int|
                0 <= a < b < ordered@.len() ==> spec_precedes(
                    phs@,
                    ordered@[a] as int,
                    ordered@[b] as int,
                ),
            forall|e: int|
                0 <= e < idx && phs@[e].order is Some ==> #[trigger] ordered@.contains(e as usize),
            ordered@.len() == count_some(phs@, idx as int),
        decreases n - idx,
    {
        if phs[idx].order.is_some() {
            let mut p: usize = 0;
            while p < ordered.len() && precedes_at(phs, ordered[p], idx)
                invariant
                    n == phs@.len(),
                    idx < n,
                    p <= ordered@.len(),
                    forall|k: int|
                        0 <= k < ordered@.len() ==> (#[trigger] ordered@[k]) < idx
                            && phs@[ordered@[k] as int].order is Some,
                    forall|a: int, b: int|
                        0 <= a < b < ordered@.len() ==> spec_precedes(
                            phs@,
                            ordered@[a] as int,
                            ordered@[b] as int,
                        ),
                    forall|q: int|
                        0 <= q < p ==> spec_precedes(phs@, ordered@[q] as int, idx as int),
                decreases ordered@.len() - p,
            {
                p = p + 1;
            }
            proof {
                if p < ordered@.len() {
                    assert(spec_precedes(phs@, idx as int, ordered@[p as int] as int));
                }
                let ghost newv = ordered@.insert(p as int, idx);
                assert forall|a: int, b: int| 0 <= a < b < newv.len() implies spec_precedes(
                    phs@,
                    newv[a] as int,
                    newv[b] as int,
                ) by {
                    if b < p {
                    } else if a < p && b == p {
                    } else if a < p && b > p {
                        assert(newv[b] == ordered@[b - 1]);
                    } else if a == p && b > p {
                        assert(newv[b] == ordered@[b - 1]);
                        if p < ordered@.len() {
                            assert(spec_precedes(phs@, idx as int, ordered@[p as int] as int));
                            if b - 1 > p {
                                assert(spec_precedes(
                                    phs@,
                                    ordered@[p as int] as int,
                                    ordered@[b - 1] as int,
                                ));
                            }
                        }
                    } else {
                        assert(newv[a] == ordered@[a - 1]);
                        assert(newv[b] == ordered@[b - 1]);
                    }
                }
                assert forall|e: int|
                    0 <= e < idx + 1 && phs@[e].order is Some implies newv.contains(
                    e as usize,
                ) by {
                    if e < idx {
                        assert(ordered@.contains(e as usize));
                        let w = choose|w: int| 0 <= w < ordered@.len() && ordered@[w] == e as usize;
                        if w < p {
                            assert(newv[w] == e as usize);
                        } else {
                            assert(newv[w + 1] == e as usize);
                        }
                    } else {
                        assert(newv[p as int] == idx);
                    }
                }
            }
            ordered.insert(p, idx);
        }
        idx = idx + 1;
    }
    let mut r: Vec<usize> = ordered;
    let ghost sorted_len = r@.len();
    let mut u: usize = 0;
    while u < n
        invariant
            n == phs@.len(),
            u <= n,
            sorted_len <= r@.len(),
            sorted_len == count_some(phs@, n as int),
            forall|k: int|
                0 <= k < sorted_len ==> (#[trigger] r@[k]) < n && phs@[r@[k] as int].order is Some,
            forall|a: int, b: int|
                0 <= a < b < sorted_len ==> spec_precedes(phs@, r@[a] as int, r@[b] as int),
            // the unordered suffix so far
            forall|k: int|
                sorted_len <= k < r@.len() ==> (#[trigger] r@[k]) < u
                    && phs@[r@[k] as int].order is None,
            forall|a: int, b: int|
                sorted_len <= a < b < r@.len() ==> r@[a] < r@[b],
            forall|e: int|
                0 <= e < u && phs@[e].order is None ==> #[trigger] r@.contains(e as usize),
            forall|e: int| 0 <= e < n && phs@[e].order is Some ==> #[trigger] r@.contains(e as usize),
            r@.len() == sorted_len + count_none(phs@, u as int),
        decreases n - u,
    {
        if phs[u].order.is_none() {
            proof {
                assert forall|e: int| 0 <= e < n && phs@[e].order is Some implies r@.push(
                    u as usize,
                ).contains(e as usize) by {
                    assert(r@.contains(e as usize));
                    let w = choose|w: int| 0 <= w < r@.len() && r@[w] == e as usize;
                    assert(r@.push(u as usize)[w] == e as usize);
                }
                assert forall|e: int| 0 <= e < u + 1 && phs@[e].order is None implies r@.push(
                    u as usize,
                ).contains(e as usize) by {
                    if e < u {
                        assert(r@.contains(e as usize));
                        let w = choose|w: int| 0 <= w < r@.len() && r@[w] == e as usize;
                        assert(r@.push(u as usize)[w] == e as usize);
                    } else {
                        assert(r@.push(u as usize)[r@.len() as int] == u as usize);
                    }
                }
            }
            r.push(u);
        }
        u = u + 1;
    }
    proof {
        lemma_counts_sum(phs@, n as int);
        assert forall|a: int, b: int| 0 <= a < b < r@.len() implies spec_precedes(
            phs@,
            r@[a] as int,
            r@[b] as int,
        ) by {
            if a < sorted_len && b >= sorted_len {
                assert(phs@[r@[a] as int].order is Some);
                assert(phs@[r@[b] as int].order is None);
            }
        }
        assert forall|i: int| 0 <= i < phs@.len() implies #[trigger] r@.contains(i as usize) by {
            if phs@[i].order is Some {
            } else {
            }
        }
    }
    r
}

// --- the bulk-resolution function step ---

/// The select mapping's first pair whose column misses the row, or the
/// mapping's length when every column is in bounds.
pub open spec fn first_oob(select: Seq<(String, usize)>, row_len: int, j: int) -> int
    decreases select.len() - j,
{
    if j < 0 || j >= select.len() {
        select.len() as int
    } else if select[j].1 >= row_len {
        j
    } else {
        first_oob(select, row_len, j + 1)
    }
}

proof fn lemma_first_oob_bounds(select: Seq<(String, usize)>, row_len: int, j: int)
    requires
        0 <= j <= select.len(),
    ensures
        j <= first_oob(select, row_len, j) <= select.len(),
    decreases select.len() - j,
{
    if j < select.len() && select[j].1 < row_len {
        lemma_first_oob_bounds(select, row_len, j + 1);
    }
}

/// The mapping after inserting the first `k` pairs of the select mapping,
/// each bound to its column of the chosen row.
pub open spec fn insert_pairs(
    m: Map<Seq<char>, Seq<char>>,
    select: Seq<(String, usize)>,
    row: Seq<String>,
    k: int,
) -> Map<Seq<char>, Seq<char>>
    decreases k,
{
    if k <= 0 {
        m
    } else {
        insert_pairs(m, select, row, k - 1).insert(select[k - 1].0@, row[select[k - 1].1 as int]@)
    }
}

proof fn lemma_insert_pairs(
    m: Map<Seq<char>, Seq<char>>,
    select: Seq<(String, usize)>,
    row: Seq<String>,
    k: int,
)
    requires
        0 <= k <= select.len(),
        forall|a: int, b: int| 0 <= a < b < select.len() ==> select[a].0@ != select[b].0@,
    ensures
        forall|j: int|
            0 <= j < k ==> insert_pairs(m, select, row, k).dom().contains(
                (#[trigger] select[j]).0@,
            ) && insert_pairs(m, select, row, k)[select[j].0@] == row[select[j].1 as int]@,
    decreases k,
{
    if k > 0 {
        lemma_insert_pairs(m, select, row, k - 1);
        assert forall|j: int| 0 <= j < k implies insert_pairs(m, select, row, k).dom().contains(
            (#[trigger] select[j]).0@,
        ) && insert_pairs(m, select, row, k)[select[j].0@] == row[select[j].1 as int]@ by {
            if j < k - 1 {
                assert(select[j].0@ != select[k - 1].0@);
            }
        }
    }
}

/// The names bound by the first `k` pairs of a select mapping.
pub open spec fn select_keys_upto(select: Seq<(String, usize)>, k: int) -> Set<Seq<char>> {
    Set::new(
        |n: Seq<char>| exists|j: int| 0 <= j < k && (#[trigger] select[j]).0@ == n,
    )
}

proof fn lemma_insert_pairs_dom(
    m: Map<Seq<char>, Seq<char>>,
    select: Seq<(String, usize)>,
    row: Seq<String>,
    k: int,
)
    requires
        0 <= k <= select.len(),
    ensures
        insert_pairs(m, select, row, k).dom() == m.dom().union(select_keys_upto(select, k)),
    decreases k,
{
    if k <= 0 {
        assert(insert_pairs(m, select, row, k).dom() =~= m.dom().union(
            select_keys_upto(select, k),
        ));
    } else {
        lemma_insert_pairs_dom(m, select, row, k - 1);
        assert(insert_pairs(m, select, row, k).dom() =~= m.dom().union(
            select_keys_upto(select, k),
        )) by {
            assert forall|n: Seq<char>| select_keys_upto(select, k).contains(n) implies insert_pairs(
                m,
                select,
                row,
                k,
            ).dom().contains(n) by {
                let j = choose|j: int| 0 <= j < k && (#[trigger] select[j]).0@ == n;
                if j < k - 1 {
                    assert(select_keys_upto(select, k - 1).contains(n));
                }
            }
            assert forall|n: Seq<char>|
                insert_pairs(m, select, row, k).dom().contains(n) && !m.dom().contains(
                    n,
                ) implies select_keys_upto(select, k).contains(n) by {
                if n == select[k - 1].0@ {
                    assert((#[trigger] select[k - 1]).0@ == n);
                } else {
                    assert(select_keys_upto(select, k - 1).contains(n));
                    let j = choose|j: int| 0 <= j < k - 1 && (#[trigger] select[j]).0@ == n;
                    assert(0 <= j < k && select[j].0@ == n);
                }
            }
        }
    }
}

/// Seeds the variables of a snippet function from the chosen row: for each
/// `(variable, column)` pair of the select mapping, the value at that column.
/// Fails on the first pair whose column misses the row.
pub fn apply_function_row(function: &Function, row: &Vec<String>, vars: &mut VarMap) -> (r: Result<
    (),
    ResolveError,
>)
    requires
        function.wf(),
        old(vars).wf(),
    ensures
        final(vars).wf(),
        (r is Ok <==> first_oob(function.select@, row@.len() as int, 0)
            == function.select@.len()),
        r is Ok ==> final(vars)@ == insert_pairs(
            old(vars)@,
            function.select@,
            row@,
            function.select@.len() as int,
        ),
        r is Ok ==> forall|j: int|
            0 <= j < function.select@.len() ==> final(vars)@.dom().contains(
                (#[trigger] function.select@[j]).0@,
            ) && final(vars)@[function.select@[j].0@] == row@[function.select@[j].1 as int]@,
        r is Err ==> {
            let oob = first_oob(function.select@, row@.len() as int, 0);
            r == Err::<(), ResolveError>(
                ResolveError::ColumnOutOfBounds {
                    column: function.select@[oob].1,
                    variable: function.select@[oob].0,
                },
            )
        },
{
    let ghost select = function.select@;
    let ghost row_len = row@.len() as int;
    let mut j: usize = 0;
    while j < function.select.len()
        invariant
            function.wf(),
            vars.wf(),
            select == function.select@,
            row_len == row@.len() as int,
            j <= select.len(),
            forall|q: int| 0 <= q < j ==> (#[trigger] select[q]).1 < row@.len(),
            first_oob(select, row_len, 0) == first_oob(select, row_len, j as int),
            vars@ == insert_pairs(old(vars)@, select, row@, j as int),
        decreases select.len() - j,
    {
        let col: usize = function.select[j].1;
        let nm: String = function.select[j].0.clone();
        if col < row.len() {
            let value: String = row[col].clone();
            vars.set(nm, value);
            j = j + 1;
        } else {
            assert(first_oob(select, row_len, j as int) == j as int);
            return Err(
                ResolveError::ColumnOutOfBounds { column: col, variable: nm },
            );
        }
    }
    proof {
        lemma_insert_pairs(old(vars)@, select, row@, select.len() as int);
    }
    Ok(())
}

// --- per-placeholder resolution ---

/// The prompt text shown when selecting a value for a variable.
fn select_prompt(name: &str) -> (r: String)
    ensures
        r@ == "Select value for "@ + name@,
{
    let mut p = String::from_str("Select value for ");
    p.append(name);
    p
}

/// The prompt text shown when entering a value for a variable.
fn input_prompt(name: &str) -> (r: String)
    ensures
        r@ == "Enter value for "@ + name@,
{
    let mut p = String::from_str("Enter value for ");
    p.append(name);
    p
}

/// Runs a lookup command and splits its captured output into rows. A failed
/// run yields `CommandExecutionFailed` naming the command and its exit code;
/// an empty row set yields `on_empty`; otherwise the non-empty rows come
/// back.
pub fn fetch_rows<L: LookupExecutor>(
    lookups: &mut L,
    command: &str,
    on_empty: ResolveError,
) -> (r: Result<Vec<Vec<String>>, ResolveError>)
    ensures
        (r matches Ok(rows) ==> rows@.len() > 0),
        (r matches Err(e) ==> e.is_failure_of(command@) || e == on_empty),
{
    let out = match lookups.run_lookup(command) {
        Ok(o) => o,
        Err(code) => {
            return Err(
                ResolveError::CommandExecutionFailed {
                    command: command.to_owned(),
                    exit_code: code,
                },
            );
        },
    };
    let records = split_records(out.as_str());
    if records.len() == 0 {
        return Err(on_empty);
    }
    Ok(records)
}

/// The column a placeholder reads from its chosen row: its `select`, or
/// column 0 when unset.
pub open spec fn chosen_column(ph: Placeholder) -> usize {
    match ph.select {
        Some(c) => c,
        None => 0,
    }
}

/// The failures resolving one placeholder can produce, tied to its shape:
/// without `from`, only the malformed-name case or a cancelled entry; with
/// `from`, only a failure or empty row set of that very command, a cancelled
/// or empty selection, the column error for this placeholder's column and
/// name, or the malformed case.
pub open spec fn placeholder_error(ph: Placeholder, e: ResolveError) -> bool {
    match ph.from {
        Some(cmd) => {
            ||| e == ResolveError::MalformedPlaceholder && ph.name@.len() == 0
            ||| e.is_failure_of(cmd@)
            ||| e.is_empty_lookup_of(cmd@)
            ||| e == ResolveError::SelectionAborted
            ||| e == ResolveError::EmptyChoiceSet
            ||| e.is_column_error(chosen_column(ph), ph.name@)
        },
        None => (e == ResolveError::MalformedPlaceholder && ph.name@.len() == 0) || e
            == ResolveError::InputAborted,
    }
}

/// Takes the field at `column` of row `index`: the value a placeholder
/// resolved from lookup rows stores. Fails with the column error for
/// `variable` exactly when the chosen row is too short.
pub fn select_field(
    records: &Vec<Vec<String>>,
    index: usize,
    column: usize,
    variable: &str,
) -> (r: Result<String, ResolveError>)
    requires
        index < records@.len(),
    ensures
        r is Ok <==> column < records@[index as int]@.len(),
        (r matches Ok(v) ==> v@ == records@[index as int]@[column as int]@),
        (r matches Err(e) ==> e.is_column_error(column, variable@)),
{
    if column < records[index].len() {
        Ok(records[index][column].clone())
    } else {
        Err(ResolveError::ColumnOutOfBounds { column, variable: variable.to_owned() })
    }
}

/// Resolves one placeholder into `vars`, unless its name is already bound:
/// a name is resolved once and every later occurrence reuses the value.
/// A placeholder with a `from` command resolves from a chosen lookup row,
/// taking the field at `select` (column 0 when unset); one without resolves
/// from a text prompt seeded with its default. A nameless placeholder that
/// reaches resolution is malformed.
///
/// The failures are tied to the paths: without `from`, only a malformed
/// name or a cancelled entry — never a lookup, selection, or column error —
/// and with `from`, only a failure or empty row set of that very command,
/// a cancelled selection, the column error for this placeholder's column
/// and name, or the malformed case.
pub fn resolve_placeholder<P: ValueProvider, L: LookupExecutor>(
    ph: &Placeholder,
    vars: &mut VarMap,
    provider: &mut P,
    lookups: &mut L,
) -> (r: Result<(), ResolveError>)
    requires
        old(vars).wf(),
    ensures
        final(vars).wf(),
        r is Err ==> final(vars)@ == old(vars)@,
        old(vars)@.dom().contains(ph.name@) ==> r is Ok && final(vars)@ == old(vars)@,
        r is Ok ==> final(vars)@ == old(vars)@.insert(ph.name@, final(vars)@[ph.name@]),
        !old(vars)@.dom().contains(ph.name@) && ph.name@.len() == 0 ==> r == Err::<
            (),
            ResolveError,
        >(ResolveError::MalformedPlaceholder),
        (r matches Err(e) ==> placeholder_error(*ph, e)),
{
    if vars.contains_key(ph.name.as_str()) {
        proof {
            assert(vars@ =~= vars@.insert(ph.name@, vars@[ph.name@]));
        }
        return Ok(());
    }
    if ph.name.as_str().unicode_len() == 0 {
        return Err(ResolveError::MalformedPlaceholder);
    }
    let value: String;
    match &ph.from {
        Some(cmd) => {
            let records = match fetch_rows(
                lookups,
                cmd.as_str(),
                ResolveError::NoLookupResults { command: cmd.clone() },
            ) {
                Ok(rows) => rows,
                Err(e) => {
                    return Err(e);
                },
            };
            let prompt = select_prompt(ph.name.as_str());
            let shown = clone_records(&records);
            let idx = match provider.prompt_select(
                ph.name.as_str(),
                prompt.as_str(),
                shown,
                Some(0),
            ) {
                Ok(i) => i,
                Err(e) => {
                    return Err(e);
                },
            };
            let col: usize = match ph.select {
                Some(c) => c,
                None => 0,
            };
            value = match select_field(&records, idx, col, ph.name.as_str()) {
                Ok(v) => v,
                Err(e) => {
                    return Err(e);
                },
            };
        },
        None => {
            let prompt = input_prompt(ph.name.as_str());
            let def: Option<String> = match &ph.default {
                Some(d) => Some(d.clone()),
                None => None,
            };
            value = match provider.prompt_input(ph.name.as_str(), prompt.as_str(), def) {
                Ok(v) => v,
                Err(e) => {
                    return Err(e);
                },
            };
        },
    }
    vars.set(ph.name.clone(), value);
    Ok(())
}

// --- whole-snippet resolution ---

/// The names the placeholders of a list carry.
pub open spec fn placeholder_names(phs: Seq<Placeholder>) -> Set<Seq<char>> {
    Set::new(
        |n: Seq<char>| exists|i: int| 0 <= i < phs.len() && (#[trigger] phs[i]).name@ == n,
    )
}

/// The variable names a snippet function seeds, if any.
pub open spec fn function_names(f: Option<Function>) -> Set<Seq<char>> {
    match f {
        Some(func) => select_keys_upto(func.select@, func.select@.len() as int),
        None => Set::empty(),
    }
}

/// The names of the placeholders at the first `k` positions of a resolution
/// sequence.
pub open spec fn prefix_names(order: Seq<usize>, phs: Seq<Placeholder>, k: int) -> Set<Seq<char>> {
    Set::new(
        |n: Seq<char>| exists|q: int|
            0 <= q < k && (#[trigger] phs[order[q] as int]).name@ == n,
    )
}

/// Resolves every placeholder of a snippet and renders its template.
///
/// The snippet's function, if any, runs first and seeds its variables from
/// one chosen row; the placeholders are then visited in the canonical
/// resolution sequence, each name resolved at most once. On success the
/// result is the template rendered under a mapping that binds exactly the
/// placeholder names and the function's select keys; in particular a
/// template without tokens is returned unchanged, and with no function it is
/// returned successfully. Any failure aborts the run with no output.
pub fn resolve_placeholders<P: ValueProvider, L: LookupExecutor>(
    snippet: &Snippet,
    provider: &mut P,
    lookups: &mut L,
) -> (r: Result<String, ResolveError>)
    requires
        snippet.wf(),
    ensures
        (r matches Ok(cmd) ==> exists|m: Map<Seq<char>, Seq<char>>|
            cmd@ == #[trigger] render_spec(snippet.command@, m) && m.dom() == placeholder_names(
                snippet.placeholders@,
            ).union(function_names(snippet.function))),
        token_free(snippet.command@) ==> (r matches Ok(cmd) ==> cmd@ == snippet.command@),
        snippet.function is None && snippet.placeholders@.len() == 0 ==> r is Ok,
        snippet.function is None && token_free(snippet.command@) ==> r is Ok,
        (r matches Err(e) ==> match snippet.function {
            Some(f) => {
                ||| e.is_failure_of(f.from@)
                ||| e == ResolveError::NoFunctionResults
                ||| e == ResolveError::SelectionAborted
                ||| e == ResolveError::EmptyChoiceSet
                ||| exists|j: int|
                    0 <= j < f.select@.len() && e.is_column_error(
                        (#[trigger] f.select@[j]).1,
                        f.select@[j].0@,
                    )
                ||| exists|i: int|
                    0 <= i < snippet.placeholders@.len() && placeholder_error(
                        #[trigger] snippet.placeholders@[i],
                        e,
                    )
            },
            None => exists|i: int|
                0 <= i < snippet.placeholders@.len() && placeholder_error(
                    #[trigger] snippet.placeholders@[i],
                    e,
                ),
        }),
{
    let mut vars = VarMap::new();
    match &snippet.function {
        Some(function) => {
            let records = match fetch_rows(
                lookups,
                function.from.as_str(),
                ResolveError::NoFunctionResults,
            ) {
                Ok(rows) => rows,
                Err(e) => {
                    return Err(e);
                },
            };
            let shown = clone_records(&records);
            let idx = match provider.prompt_select(
                "function_select",
                "Select a record",
                shown,
                Some(0),
            ) {
                Ok(i) => i,
                Err(e) => {
                    return Err(e);
                },
            };
            match apply_function_row(function, &records[idx], &mut vars) {
                Ok(()) => {},
                Err(e) => {
                    proof {
                        lemma_first_oob_bounds(
                            function.select@,
                            records@[idx as int]@.len() as int,
                            0,
                        );
                        let oob = first_oob(
                            function.select@,
                            records@[idx as int]@.len() as int,
                            0,
                        );
                        assert(e.is_column_error(
                            function.select@[oob].1,
                            function.select@[oob].0@,
                        ));
                    }
                    return Err(e);
                },
            }
            proof {
                lemma_insert_pairs_dom(
                    Map::empty(),
                    function.select@,
                    records@[idx as int]@,
                    function.select@.len() as int,
                );
                assert(vars@.dom() =~= function_names(snippet.function));
            }
        },
        None => {
            proof {
                assert(vars@.dom() =~= function_names(snippet.function));
            }
        },
    }
    let order = resolution_order(&snippet.placeholders);
    proof {
        assert(vars@.dom() =~= function_names(snippet.function).union(
            prefix_names(order@, snippet.placeholders@, 0),
        ));
        if token_free(snippet.command@) {
            crate::parser::lemma_placeholders_skip(
                snippet.command@,
                0,
                snippet.command@.len() as int,
            );
            assert(snippet.placeholders@.len() == snippet.placeholders@.map_values(
                |p: Placeholder| p@,
            ).len());
        }
    }
    let mut k: usize = 0;
    while k < order.len()
        invariant
            vars.wf(),
            order@.len() == snippet.placeholders@.len(),
            forall|q: int|
                0 <= q < order@.len() ==> (#[trigger] order@[q]) < snippet.placeholders@.len(),
            k <= order@.len(),
            token_free(snippet.command@) ==> order@.len() == 0,
            vars@.dom() == function_names(snippet.function).union(
                prefix_names(order@, snippet.placeholders@, k as int),
            ),
        decreases order@.len() - k,
    {
        let idx: usize = order[k];
        let ph = &snippet.placeholders[idx];
        let ghost pre = vars@.dom();
        if !vars.contains_key(ph.name.as_str()) {
            match resolve_placeholder(ph, &mut vars, provider, lookups) {
                Ok(()) => {},
                Err(e) => {
                    proof {
                        assert(placeholder_error(
                            snippet.placeholders@[order@[k as int] as int],
                            e,
                        ));
                    }
                    return Err(e);
                },
            }
        }
        proof {
            assert(vars@.dom().contains(ph.name@));
            assert(vars@.dom() =~= function_names(snippet.function).union(
                prefix_names(order@, snippet.placeholders@, k as int + 1),
            )) by {
                assert forall|n: Seq<char>|
                    prefix_names(order@, snippet.placeholders@, k as int + 1).contains(
                        n,
                    ) implies vars@.dom().contains(n) by {
                    let q = choose|q: int|
                        0 <= q < k as int + 1 && (#[trigger] snippet.placeholders@[order@[q] as int]).name@
                            == n;
                    if q < k as int {
                        assert(prefix_names(order@, snippet.placeholders@, k as int).contains(n));
                        assert(pre.contains(n));
                    }
                }
                assert forall|n: Seq<char>| vars@.dom().contains(n) implies function_names(
                    snippet.function,
                ).contains(n) || prefix_names(order@, snippet.placeholders@, k as int + 1).contains(
                    n,
                ) by {
                    if n == ph.name@ {
                        assert((#[trigger] snippet.placeholders@[order@[k as int] as int]).name@
                            == n);
                    } else {
                        assert(pre.contains(n));
                        if prefix_names(order@, snippet.placeholders@, k as int).contains(n) {
                            let q = choose|q: int|
                                0 <= q < k as int && (#[trigger] snippet.placeholders@[order@[q] as int]).name@
                                    == n;
                            assert(0 <= q < k as int + 1 && snippet.placeholders@[order@[q] as int].name@
                                == n);
                        }
                    }
                }
            }
        }
        k = k + 1;
    }
    proof {
        assert(prefix_names(order@, snippet.placeholders@, order@.len() as int)
            =~= placeholder_names(snippet.placeholders@)) by {
            assert forall|n: Seq<char>| placeholder_names(snippet.placeholders@).contains(
                n,
            ) implies prefix_names(order@, snippet.placeholders@, order@.len() as int).contains(
                n,
            ) by {
                let i = choose|i: int|
                    0 <= i < snippet.placeholders@.len() && (#[trigger] snippet.placeholders@[i]).name@
                        == n;
                assert(order@.contains(i as usize));
                let q = choose|q: int| 0 <= q < order@.len() && order@[q] == i as usize;
                assert((#[trigger] snippet.placeholders@[order@[q] as int]).name@ == n);
            }
            assert forall|n: Seq<char>|
                prefix_names(order@, snippet.placeholders@, order@.len() as int).contains(
                    n,
                ) implies placeholder_names(snippet.placeholders@).contains(n) by {
                let q = choose|q: int|
                    0 <= q < order@.len() && (#[trigger] snippet.placeholders@[order@[q] as int]).name@
                        == n;
                assert((#[trigger] snippet.placeholders@[order@[q] as int]).name@ == n);
            }
        }
    }
    let rendered = render_command(snippet.command.as_str(), &vars);
    proof {
        assert(vars@.dom() == placeholder_names(snippet.placeholders@).union(
            function_names(snippet.function),
        )) by {
            assert(function_names(snippet.function).union(
                prefix_names(order@, snippet.placeholders@, order@.len() as int),
            ) =~= placeholder_names(snippet.placeholders@).union(function_names(snippet.function)));
        }
        if token_free(snippet.command@) {
            lemma_render_token_free(snippet.command@, vars@);
        }
    }
    Ok(rendered)
}

/// Presents the snippets by name, resolves the chosen one, and returns the
/// rendered command.
pub fn run_qcl<P: ValueProvider, L: LookupExecutor>(
    snippets: &Vec<Snippet>,
    provider: P,
    lookups: L,
) -> (r: Result<String, ResolveError>)
    requires
        forall|i: int| 0 <= i < snippets@.len() ==> (#[trigger] snippets@[i]).wf(),
    ensures
        snippets@.len() == 0 <==> r == Err::<String, ResolveError>(ResolveError::NoSnippets),
        (r matches Ok(cmd) ==> exists|i: int, m: Map<Seq<char>, Seq<char>>|
            0 <= i < snippets@.len() && cmd@ == #[trigger] render_spec(snippets@[i].command@, m)
                && m.dom() == placeholder_names(snippets@[i].placeholders@).union(
                function_names(snippets@[i].function),
            )),
{
    let mut provider = provider;
    let mut lookups = lookups;
    if snippets.len() == 0 {
        return Err(ResolveError::NoSnippets);
    }
    let mut names: Vec<Vec<String>> = Vec::new();
    let mut i: usize = 0;
    while i < snippets.len()
        invariant
            i <= snippets@.len(),
            names@.len() == i,
            forall|q: int|
                0 <= q < i ==> (#[trigger] names@[q])@.len() == 1 && names@[q]@[0]@
                    == snippets@[q].name@,
        decreases snippets@.len() - i,
    {
        let mut row: Vec<String> = Vec::new();
        row.push(snippets[i].name.clone());
        names.push(row);
        i = i + 1;
    }
    let idx = match provider.prompt_select("snippet", "Select a snippet", names, Some(0)) {
        Ok(i) => i,
        Err(e) => {
            return Err(e);
        },
    };
    let result = resolve_placeholders(&snippets[idx], &mut provider, &mut lookups);
    proof {
        match &result {
            Ok(cmd) => {
                let m = choose|m: Map<Seq<char>, Seq<char>>|
                    cmd@ == #[trigger] render_spec(snippets@[idx as int].command@, m) && m.dom()
                        == placeholder_names(snippets@[idx as int].placeholders@).union(
                        function_names(snippets@[idx as int].function),
                    );
                assert(cmd@ == render_spec(snippets@[idx as int].command@, m));
            },
            Err(_) => {},
        }
    }
    result
}

} // verus!
