//! Specification-level grouping of fact rows into daily aggregate triples:
//! the count, duration sum, and duration count of a (date, project, status)
//! cell, with the lemmas that track them under push and point update.

use vstd::prelude::*;
use crate::models::Pipeline;
use crate::models::fact_ok;
use crate::models::spec_in_cell;

verus! {

/// The duration a fact row contributes to its cell's `total_duration`.
pub open spec fn spec_row_dur(p: Pipeline) -> int {
    if p.duration is Some {
        p.duration->Some_0 as int
    } else {
        0
    }
}

/// The unit a fact row contributes to its cell's `count_with_duration`.
pub open spec fn spec_row_has_dur(p: Pipeline) -> int {
    if p.duration is Some {
        1int
    } else {
        0int
    }
}

/// Number of fact rows grouped into the cell (`date`, `pid`, `st`).
pub open spec fn spec_count(rows: Seq<Pipeline>, date: Seq<char>, pid: int, st: Seq<char>) -> int
    decreases rows.len(),
{
    if rows.len() == 0 {
        0
    } else {
        spec_count(rows.drop_last(), date, pid, st) + if spec_in_cell(
            rows.last(),
            date,
            pid,
            st,
        ) {
            1int
        } else {
            0int
        }
    }
}

/// Sum of the present durations of the fact rows grouped into the cell.
pub open spec fn spec_dur_sum(rows: Seq<Pipeline>, date: Seq<char>, pid: int, st: Seq<char>) -> int
    decreases rows.len(),
{
    if rows.len() == 0 {
        0
    } else {
        spec_dur_sum(rows.drop_last(), date, pid, st) + if spec_in_cell(
            rows.last(),
            date,
            pid,
            st,
        ) {
            spec_row_dur(rows.last())
        } else {
            0int
        }
    }
}

/// Number of fact rows grouped into the cell whose duration is present.
pub open spec fn spec_dur_count(rows: Seq<Pipeline>, date: Seq<char>, pid: int, st: Seq<char>) -> int
    decreases rows.len(),
{
    if rows.len() == 0 {
        0
    } else {
        spec_dur_count(rows.drop_last(), date, pid, st) + if spec_in_cell(
            rows.last(),
            date,
            pid,
            st,
        ) {
            spec_row_has_dur(rows.last())
        } else {
            0int
        }
    }
}

/// Appending a row adds exactly its own contribution to every cell.
pub proof fn lemma_group_push(rows: Seq<Pipeline>, p: Pipeline, date: Seq<char>, pid: int, st: Seq<char>)
    ensures
        spec_count(rows.push(p), date, pid, st) == spec_count(rows, date, pid, st) + if spec_in_cell(p, date, pid, st) {
            1int
        } else {
            0int
        },
        spec_dur_sum(rows.push(p), date, pid, st) == spec_dur_sum(rows, date, pid, st) + if spec_in_cell(p, date, pid, st) {
            spec_row_dur(p)
        } else {
            0int
        },
        spec_dur_count(rows.push(p), date, pid, st) == spec_dur_count(rows, date, pid, st) + if spec_in_cell(p, date, pid, st) {
            spec_row_has_dur(p)
        } else {
            0int
        },
{
    assert(rows.push(p).drop_last() =~= rows);
    assert(rows.push(p).last() == p);
}

/// Replacing row `i` swaps its old contribution for the new one, in every
/// cell.
pub proof fn lemma_group_update(rows: Seq<Pipeline>, i: int, q: Pipeline, date: Seq<char>, pid: int, st: Seq<char>)
    requires
        0 <= i < rows.len(),
    ensures
        spec_count(rows.update(i, q), date, pid, st) == spec_count(rows, date, pid, st) - (if spec_in_cell(rows[i], date, pid, st) {
            1int
        } else {
            0int
        }) + (if spec_in_cell(q, date, pid, st) {
            1int
        } else {
            0int
        }),
        spec_dur_sum(rows.update(i, q), date, pid, st) == spec_dur_sum(rows, date, pid, st) - (if spec_in_cell(rows[i], date, pid, st) {
            spec_row_dur(rows[i])
        } else {
            0int
        }) + (if spec_in_cell(q, date, pid, st) {
            spec_row_dur(q)
        } else {
            0int
        }),
        spec_dur_count(rows.update(i, q), date, pid, st) == spec_dur_count(rows, date, pid, st) - (if spec_in_cell(rows[i], date, pid, st) {
            spec_row_has_dur(rows[i])
        } else {
            0int
        }) + (if spec_in_cell(q, date, pid, st) {
            spec_row_has_dur(q)
        } else {
            0int
        }),
    decreases rows.len(),
{
    let r2 = rows.update(i, q);
    if i == rows.len() - 1 {
        assert(r2.drop_last() =~= rows.drop_last());
        assert(r2.last() == q);
    } else {
        assert(r2.drop_last() =~= rows.drop_last().update(i, q));
        assert(r2.last() == rows.last());
        assert(rows.drop_last()[i] == rows[i]);
        lemma_group_update(rows.drop_last(), i, q, date, pid, st);
    }
}

/// The three cell measures are non-negative and mutually bounded; with
/// well-formed rows each counted duration is at least one second.
pub proof fn lemma_group_bounds(rows: Seq<Pipeline>, date: Seq<char>, pid: int, st: Seq<char>)
    requires
        forall|j: int| 0 <= j < rows.len() ==> fact_ok(#[trigger] rows[j]),
    ensures
        0 <= spec_dur_count(rows, date, pid, st) <= spec_count(rows, date, pid, st),
        spec_dur_count(rows, date, pid, st) <= spec_dur_sum(rows, date, pid, st),
    decreases rows.len(),
{
    if rows.len() > 0 {
        assert(forall|j: int| 0 <= j < rows.drop_last().len() ==> #[trigger] rows.drop_last()[j]
            == rows[j]);
        lemma_group_bounds(rows.drop_last(), date, pid, st);
    }
}

/// A row grouped into a cell accounts for at least its own contribution.
pub proof fn lemma_group_member(rows: Seq<Pipeline>, i: int, date: Seq<char>, pid: int, st: Seq<char>)
    requires
        forall|j: int| 0 <= j < rows.len() ==> fact_ok(#[trigger] rows[j]),
        0 <= i < rows.len(),
        spec_in_cell(rows[i], date, pid, st),
    ensures
        spec_count(rows, date, pid, st) >= 1,
        spec_dur_sum(rows, date, pid, st) >= spec_row_dur(rows[i]),
        spec_dur_count(rows, date, pid, st) >= spec_row_has_dur(rows[i]),
        spec_dur_sum(rows, date, pid, st) - spec_row_dur(rows[i]) >= spec_dur_count(
            rows,
            date,
            pid,
            st,
        ) - spec_row_has_dur(rows[i]),
    decreases rows.len(),
{
    assert(forall|j: int| 0 <= j < rows.drop_last().len() ==> #[trigger] rows.drop_last()[j]
        == rows[j]);
    if i == rows.len() - 1 {
        lemma_group_bounds(rows.drop_last(), date, pid, st);
    } else {
        lemma_group_member(rows.drop_last(), i, date, pid, st);
        assert(fact_ok(rows.last()));
    }
}

/// A cell's count is never negative, and an empty cell has no duration sum
/// and no duration count.
pub proof fn lemma_cell_zero(rows: Seq<Pipeline>, date: Seq<char>, pid: int, st: Seq<char>)
    ensures
        spec_count(rows, date, pid, st) >= 0,
        spec_count(rows, date, pid, st) == 0 ==> spec_dur_sum(rows, date, pid, st) == 0
            && spec_dur_count(rows, date, pid, st) == 0,
    decreases rows.len(),
{
    if rows.len() > 0 {
        lemma_cell_zero(rows.drop_last(), date, pid, st);
    }
}

/// A cell with at least one counted row holds a member row.
pub proof fn lemma_count_pos_member(rows: Seq<Pipeline>, date: Seq<char>, pid: int, st: Seq<char>)
    requires
        spec_count(rows, date, pid, st) >= 1,
    ensures
        exists|j: int| 0 <= j < rows.len() && spec_in_cell(#[trigger] rows[j], date, pid, st),
    decreases rows.len(),
{
    if rows.len() > 0 {
        if spec_in_cell(rows.last(), date, pid, st) {
            assert(spec_in_cell(rows[rows.len() - 1], date, pid, st));
        } else {
            lemma_count_pos_member(rows.drop_last(), date, pid, st);
            let j = choose|j: int| 0 <= j < rows.drop_last().len() && spec_in_cell(
                #[trigger] rows.drop_last()[j],
                date,
                pid,
                st,
            );
            assert(spec_in_cell(rows[j], date, pid, st));
        }
    }
}

} // verus!
